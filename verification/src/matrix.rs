//! Dense matrices over an exact ring element type, with fraction-free echelon
//! reduction and left-null-space extraction.

use vstd::prelude::*;

verus! {

use vstd::math::abs;
use crate::congruence_class::CongruenceClass;
use crate::integers::abs_u64;
use crate::integers::divides;
use crate::integers::gcd_nat;
use crate::integers::lcm_int;
use crate::integers::LCM;

/// The modular inverse of `x` modulo `m`, as a spec-level value; meaningful
/// only when an inverse exists.
pub open spec fn inv_mod(x: int, m: int) -> int {
    choose|e: int| 0 <= e < m && #[trigger] ((x * e) % m) == 1int % m
}

/// An inverse modulo `m` is unique among reduced residues.
pub proof fn lemma_inv_mod_unique(x: int, m: int, e1: int, e2: int)
    requires
        m >= 1,
        0 <= e1 < m,
        0 <= e2 < m,
        (x * e1) % m == 1int % m,
        (x * e2) % m == 1int % m,
    ensures
        e1 == e2,
{
    if m == 1 {
        assert(e1 == 0 && e2 == 0);
    } else {
        vstd::arithmetic::div_mod::lemma_small_mod(1nat, m as nat);
        vstd::arithmetic::div_mod::lemma_small_mod(e1 as nat, m as nat);
        vstd::arithmetic::div_mod::lemma_small_mod(e2 as nat, m as nat);
        // e1 == e1 * (x * e2) == (x * e1) * e2 == e2  (modulo m)
        vstd::arithmetic::div_mod::lemma_mul_mod_noop_right(e1, x * e2, m);
        assert((e1 * (x * e2)) % m == (e1 * ((x * e2) % m)) % m);
        assert(e1 * 1 == e1);
        assert((e1 * (x * e2)) % m == e1 % m);
        assert(e1 * (x * e2) == (x * e1) * e2) by (nonlinear_arith);
        vstd::arithmetic::div_mod::lemma_mul_mod_noop_left(x * e1, e2, m);
        assert(((x * e1) * e2) % m == (((x * e1) % m) * e2) % m);
        assert((1int % m) * e2 == e2);
        assert(e1 % m == e2 % m);
    }
}

/// The interface the matrix engine needs of its elements: identities, ring
/// operations, a least common multiple, and exact division — together with
/// spec-level counterparts of each operation and guards (`.._ok`) marking the
/// inputs on which the machine operation is defined.
pub trait Scalar: Sized + Copy {
    /// The identities exist (for a modular type: the modulus is positive).
    spec fn dom_ok() -> bool;

    /// The value is well formed (for a modular type: reduced).
    spec fn wf_el(self) -> bool;

    spec fn zero_spec() -> Self;

    spec fn one_spec() -> Self;

    spec fn add_spec(self, o: Self) -> Self;

    spec fn sub_spec(self, o: Self) -> Self;

    spec fn mul_spec(self, o: Self) -> Self;

    spec fn div_spec(self, o: Self) -> Self;

    spec fn lcm_spec(self, o: Self) -> Self;

    spec fn add_ok(self, o: Self) -> bool;

    spec fn sub_ok(self, o: Self) -> bool;

    spec fn mul_ok(self, o: Self) -> bool;

    spec fn div_ok(self, o: Self) -> bool;

    spec fn lcm_ok(self, o: Self) -> bool;

    fn zero() -> (r: Self)
        requires
            Self::dom_ok(),
        ensures
            r == Self::zero_spec(),
            r.wf_el(),
    ;

    fn one() -> (r: Self)
        requires
            Self::dom_ok(),
        ensures
            r == Self::one_spec(),
            r.wf_el(),
    ;

    fn is_zero(&self) -> (r: bool)
        ensures
            r == (*self == Self::zero_spec()),
    ;

    fn eq_el(&self, o: &Self) -> (r: bool)
        ensures
            r == (*self == *o),
    ;

    fn add_el(self, o: Self) -> (r: Self)
        requires
            self.wf_el(),
            o.wf_el(),
            self.add_ok(o),
        ensures
            r == self.add_spec(o),
            r.wf_el(),
    ;

    fn sub_el(self, o: Self) -> (r: Self)
        requires
            self.wf_el(),
            o.wf_el(),
            self.sub_ok(o),
        ensures
            r == self.sub_spec(o),
            r.wf_el(),
    ;

    fn mul_el(self, o: Self) -> (r: Self)
        requires
            self.wf_el(),
            o.wf_el(),
            self.mul_ok(o),
        ensures
            r == self.mul_spec(o),
            r.wf_el(),
    ;

    fn div_el(self, o: Self) -> (r: Self)
        requires
            self.wf_el(),
            o.wf_el(),
            self.div_ok(o),
        ensures
            r == self.div_spec(o),
            r.wf_el(),
    ;

    fn lcm_el(self, o: Self) -> (r: Self)
        requires
            self.wf_el(),
            o.wf_el(),
            self.lcm_ok(o),
        ensures
            r == self.lcm_spec(o),
            r.wf_el(),
    ;
}

impl Scalar for i64 {
    open spec fn dom_ok() -> bool {
        true
    }

    open spec fn wf_el(self) -> bool {
        true
    }

    open spec fn zero_spec() -> i64 {
        0
    }

    open spec fn one_spec() -> i64 {
        1
    }

    open spec fn add_spec(self, o: Self) -> i64 {
        (self as int + o as int) as i64
    }

    open spec fn sub_spec(self, o: Self) -> i64 {
        (self as int - o as int) as i64
    }

    open spec fn mul_spec(self, o: Self) -> i64 {
        (self as int * o as int) as i64
    }

    open spec fn div_spec(self, o: Self) -> i64 {
        exact_quot(self as int, o as int) as i64
    }

    open spec fn lcm_spec(self, o: Self) -> i64 {
        lcm_int(self as int, o as int) as i64
    }

    open spec fn add_ok(self, o: Self) -> bool {
        i64::MIN <= self as int + o as int <= i64::MAX
    }

    open spec fn sub_ok(self, o: Self) -> bool {
        i64::MIN <= self as int - o as int <= i64::MAX
    }

    open spec fn mul_ok(self, o: Self) -> bool {
        i64::MIN <= self as int * o as int <= i64::MAX
    }

    open spec fn div_ok(self, o: Self) -> bool {
        &&& o != 0
        &&& divides(o as int, self as int)
        &&& -i64::MAX <= exact_quot(self as int, o as int) <= i64::MAX
    }

    open spec fn lcm_ok(self, o: Self) -> bool {
        self > i64::MIN && o > i64::MIN && -i64::MAX <= lcm_int(self as int, o as int)
            <= i64::MAX
    }

    fn zero() -> (r: i64) {
        0
    }

    fn one() -> (r: i64) {
        1
    }

    fn is_zero(&self) -> (r: bool) {
        *self == 0
    }

    fn eq_el(&self, o: &Self) -> (r: bool) {
        *self == *o
    }

    fn add_el(self, o: Self) -> (r: Self) {
        self + o
    }

    fn sub_el(self, o: Self) -> (r: Self) {
        self - o
    }

    fn mul_el(self, o: Self) -> (r: Self) {
        self * o
    }

    fn div_el(self, o: Self) -> (r: Self) {
        let am = abs_u64(self);
        let bm = abs_u64(o);
        let q = am / bm;
        proof {
            vstd::arithmetic::div_mod::lemma_div_pos_is_pos(am as int, bm as int);
        }
        if (self < 0) != (o < 0) {
            -(q as i64)
        } else {
            q as i64
        }
    }

    fn lcm_el(self, o: Self) -> (r: Self) {
        LCM::lcm(self, o)
    }
}

/// The quotient of an exact division, through the magnitudes: negated when
/// the operands' signs differ.
pub open spec fn exact_quot(a: int, b: int) -> int {
    if (a < 0) != (b < 0) {
        -((abs(a) as int) / (abs(b) as int))
    } else {
        (abs(a) as int) / (abs(b) as int)
    }
}

/// For an exact division, `exact_quot` really is the quotient:
/// `b * exact_quot(a, b) == a`.
pub proof fn lemma_exact_quot_mul(a: int, b: int)
    requires
        b != 0,
        divides(b, a),
    ensures
        b * exact_quot(a, b) == a,
{
    let k = choose|kk: int| a == #[trigger] (b * kk);
    let am = abs(a) as int;
    let bm = abs(b) as int;
    let km = abs(k) as int;
    assert(am == bm * km) by (nonlinear_arith)
        requires
            a == b * k,
            am == abs(a),
            bm == abs(b),
            km == abs(k),
    ;
    vstd::arithmetic::div_mod::lemma_fundamental_div_mod_converse(am, bm, km, 0);
    assert(am / bm == km);
    assert(((a < 0) != (b < 0) ==> k == -km) && ((a < 0) == (b < 0) ==> k == km))
        by (nonlinear_arith)
        requires
            a == b * k,
            b != 0,
            am == bm * km,
            am == abs(a),
            bm == abs(b),
            km == abs(k),
            (a < 0 ==> am == -a) && (a >= 0 ==> am == a),
            (b < 0 ==> bm == -b) && (b >= 0 ==> bm == b),
            (k < 0 ==> km == -k) && (k >= 0 ==> km == k),
    ;
    assert(b * (-km) == -(b * km)) by (nonlinear_arith);
}

impl<const M: u32> Scalar for CongruenceClass<M> {
    open spec fn dom_ok() -> bool {
        M >= 1
    }

    open spec fn wf_el(self) -> bool {
        self.reduced()
    }

    open spec fn zero_spec() -> Self {
        CongruenceClass(0)
    }

    open spec fn one_spec() -> Self {
        <Self as crate::identity::One>::one_spec()
    }

    open spec fn add_spec(self, o: Self) -> Self {
        CongruenceClass(((self.rep() + o.rep()) % (M as int)) as u32)
    }

    open spec fn sub_spec(self, o: Self) -> Self {
        CongruenceClass(((self.rep() - o.rep()) % (M as int)) as u32)
    }

    open spec fn mul_spec(self, o: Self) -> Self {
        CongruenceClass(((self.rep() * o.rep()) % (M as int)) as u32)
    }

    open spec fn div_spec(self, o: Self) -> Self {
        CongruenceClass(((self.rep() * inv_mod(o.rep(), M as int)) % (M as int)) as u32)
    }

    open spec fn lcm_spec(self, o: Self) -> Self {
        self.mul_spec(o).div_spec(CongruenceClass((gcd_nat(self.0 as nat, o.0 as nat) as u32)))
    }

    open spec fn add_ok(self, o: Self) -> bool {
        true
    }

    open spec fn sub_ok(self, o: Self) -> bool {
        true
    }

    open spec fn mul_ok(self, o: Self) -> bool {
        true
    }

    open spec fn div_ok(self, o: Self) -> bool {
        gcd_nat(o.0 as nat, M as nat) == 1
    }

    open spec fn lcm_ok(self, o: Self) -> bool {
        gcd_nat(gcd_nat(self.0 as nat, o.0 as nat), M as nat) == 1
    }

    fn zero() -> (r: Self) {
        CongruenceClass(0)
    }

    fn one() -> (r: Self) {
        <Self as crate::identity::One>::one()
    }

    fn is_zero(&self) -> (r: bool) {
        self.0 == 0
    }

    fn eq_el(&self, o: &Self) -> (r: bool) {
        self.0 == o.0
    }

    fn add_el(self, o: Self) -> (r: Self) {
        self.add(o)
    }

    fn sub_el(self, o: Self) -> (r: Self) {
        self.sub(o)
    }

    fn mul_el(self, o: Self) -> (r: Self) {
        self.mul(o)
    }

    fn div_el(self, o: Self) -> (r: Self) {
        let r = self.div(o);
        proof {
            let m = M as int;
            let e = inv_mod(o.rep(), m);
            lemma_div_el_matches::<M>(self, o, r);
        }
        r
    }

    fn lcm_el(self, o: Self) -> (r: Self) {
        let g = crate::integers::GCD::gcd(self, o);
        proof {
            crate::integers::lemma_gcd_bound(self.0 as nat, o.0 as nat);
            assert(g.0 as nat == gcd_nat(self.0 as nat, o.0 as nat));
            assert(g.reduced()) by {
                if self.0 == 0 && o.0 == 0 {
                    crate::integers::lemma_gcd_zero(0nat);
                }
            }
        }
        let p = self.mul(o);
        let r = p.div(g);
        proof {
            lemma_div_el_matches::<M>(p, g, r);
        }
        r
    }
}

/// A rectangular grid: every row has exactly `cols` well-formed entries.
pub open spec fn grid_wf<T: Scalar>(m: Seq<Seq<T>>, cols: int) -> bool {
    &&& forall|i: int| 0 <= i < m.len() ==> (#[trigger] m[i]).len() == cols
    &&& forall|i: int, j: int|
        0 <= i < m.len() && 0 <= j < cols ==> (#[trigger] m[i][j]).wf_el()
}

/// A dense matrix with a fixed number of rows and columns.
#[derive(Debug)]
pub struct Matrix<T: Scalar> {
    pub rows: Vec<Vec<T>>,
    pub cols: usize,
}

impl<T: Scalar> View for Matrix<T> {
    type V = Seq<Seq<T>>;

    open spec fn view(&self) -> Seq<Seq<T>> {
        self.rows@.map_values(|r: Vec<T>| r@)
    }
}

impl<T: Scalar> PartialEq for Matrix<T> {
    fn eq(&self, other: &Self) -> (r: bool) {
        if self.cols != other.cols || self.rows.len() != other.rows.len() {
            proof {
                assert(self@.len() == self.rows@.len());
                assert(other@.len() == other.rows@.len());
            }
            return false;
        }
        let m = self.rows.len();
        for i in 0..m
            invariant
                m == self.rows@.len(),
                other.rows@.len() == m,
                self.cols == other.cols,
                forall|k: int| 0 <= k < i ==> #[trigger] self@[k] == other@[k],
        {
            if self.rows[i].len() != other.rows[i].len() {
                proof {
                    assert(self@[i as int] == self.rows@[i as int]@);
                    assert(other@[i as int] == other.rows@[i as int]@);
                }
                return false;
            }
            let n = self.rows[i].len();
            for j in 0..n
                invariant
                    m == self.rows@.len(),
                    other.rows@.len() == m,
                    i < m,
                    n == self@[i as int].len(),
                    other@[i as int].len() == n,
                    forall|k: int| 0 <= k < i ==> #[trigger] self@[k] == other@[k],
                    forall|k: int| 0 <= k < j ==> self@[i as int][k] == other@[i as int][k],
            {
                proof {
                    assert(self@[i as int] == self.rows@[i as int]@);
                    assert(other@[i as int] == other.rows@[i as int]@);
                }
                let a = self.rows[i][j];
                let b = other.rows[i][j];
                if !a.eq_el(&b) {
                    return false;
                }
            }
            proof {
                assert(self@[i as int] =~= other@[i as int]);
            }
        }
        proof {
            assert(self@ =~~= other@);
        }
        true
    }
}

impl<T: Scalar> Eq for Matrix<T> {

}

impl<T: Scalar> vstd::std_specs::cmp::PartialEqSpecImpl for Matrix<T> {
    open spec fn obeys_eq_spec() -> bool {
        true
    }

    open spec fn eq_spec(&self, other: &Self) -> bool {
        self.cols == other.cols && self@ == other@
    }
}

impl<T: Scalar> Matrix<T> {
    /// All rows have length `cols` and every entry is well formed.
    pub open spec fn wf(self) -> bool {
        &&& T::dom_ok()
        &&& grid_wf(self@, self.cols as int)
    }

    pub open spec fn nrows_spec(self) -> int {
        self@.len() as int
    }

    pub open spec fn ncols_spec(self) -> int {
        self.cols as int
    }

    pub fn nrows(&self) -> (r: usize)
        ensures
            r == self.nrows_spec(),
    {
        self.rows.len()
    }

    pub fn ncols(&self) -> (r: usize)
        ensures
            r == self.ncols_spec(),
    {
        self.cols
    }

    /// Wraps a row-of-rows array as a matrix.
    pub fn from_array(rows: Vec<Vec<T>>) -> (r: Self)
        requires
            T::dom_ok(),
            rows@.len() >= 1,
            forall|i: int| 0 <= i < rows@.len() ==> (#[trigger] rows@[i])@.len() == rows@[0]@.len(),
            forall|i: int, j: int|
                0 <= i < rows@.len() && 0 <= j < rows@[0]@.len() ==> (#[trigger] rows@[i]@[j]).wf_el(),
        ensures
            r@ == rows@.map_values(|v: Vec<T>| v@),
            r.wf(),
            r.nrows_spec() == rows@.len(),
            r.ncols_spec() == rows@[0]@.len(),
    {
        let cols = rows[0].len();
        Matrix { rows, cols }
    }

    /// The row-major position of entry `(i, j)`.
    pub fn index(&self, i: usize, j: usize) -> (r: usize)
        requires
            i * self.cols + j <= usize::MAX,
        ensures
            r == i * self.cols + j,
    {
        j + i * self.cols
    }

    /// The entry at row `i`, column `j`, or `None` outside the matrix.
    pub fn get(&self, i: usize, j: usize) -> (r: Option<&T>)
        requires
            self.wf(),
        ensures
            match r {
                Some(v) => i < self@.len() && j < self.cols && *v == self@[i as int][j as int],
                None => i >= self@.len() || j >= self.cols,
            },
    {
        if i < self.rows.len() && j < self.cols {
            proof {
                assert(self@[i as int] == self.rows@[i as int]@);
            }
            Some(&self.rows[i][j])
        } else {
            None
        }
    }

    /// The entry at row `i`, column `j`, which must be inside the matrix.
    pub fn get_unchecked(&self, i: usize, j: usize) -> (r: &T)
        requires
            self.wf(),
            i < self@.len(),
            j < self.cols,
        ensures
            *r == self@[i as int][j as int],
    {
        proof {
            assert(self@[i as int] == self.rows@[i as int]@);
        }
        &self.rows[i][j]
    }

    /// A fresh matrix whose `m * n` entries all hold `value`.
    pub fn from_value(m: usize, n: usize, value: T) -> (r: Self)
        requires
            T::dom_ok(),
            value.wf_el(),
        ensures
            r.wf(),
            r.nrows_spec() == m,
            r.ncols_spec() == n,
            forall|i: int, j: int| 0 <= i < m && 0 <= j < n ==> r@[i][j] == value,
    {
        let mut rows: Vec<Vec<T>> = Vec::new();
        for i in 0..m
            invariant
                rows@.len() == i,
                forall|k: int| 0 <= k < i ==> (#[trigger] rows@[k])@.len() == n,
                forall|k: int, l: int| 0 <= k < i && 0 <= l < n ==> rows@[k]@[l] == value,
        {
            let mut row: Vec<T> = Vec::new();
            for j in 0..n
                invariant
                    row@.len() == j,
                    forall|l: int| 0 <= l < j ==> row@[l] == value,
            {
                row.push(value);
            }
            rows.push(row);
        }
        Matrix { rows, cols: n }
    }

    /// The `m` by `n` matrix of zeros.
    pub fn zeros(m: usize, n: usize) -> (r: Self)
        requires
            T::dom_ok(),
        ensures
            r.wf(),
            r.nrows_spec() == m,
            r.ncols_spec() == n,
            forall|i: int, j: int| 0 <= i < m && 0 <= j < n ==> r@[i][j] == T::zero_spec(),
    {
        Self::from_value(m, n, T::zero())
    }

    /// A fresh `m` by `n` matrix, zero-filled.
    pub fn new(m: usize, n: usize) -> (r: Self)
        requires
            T::dom_ok(),
        ensures
            r.wf(),
            r.nrows_spec() == m,
            r.ncols_spec() == n,
            forall|i: int, j: int| 0 <= i < m && 0 <= j < n ==> r@[i][j] == T::zero_spec(),
    {
        Self::zeros(m, n)
    }

    /// The `m` by `n` matrix of zeros.
    pub fn zeroes(m: usize, n: usize) -> (r: Self)
        requires
            T::dom_ok(),
        ensures
            r.wf(),
            r.nrows_spec() == m,
            r.ncols_spec() == n,
            forall|i: int, j: int| 0 <= i < m && 0 <= j < n ==> r@[i][j] == T::zero_spec(),
    {
        Self::zeros(m, n)
    }

    /// The `n` by `n` identity matrix.
    pub fn eye(n: usize) -> (r: Self)
        requires
            T::dom_ok(),
        ensures
            r.wf(),
            r.nrows_spec() == n,
            r.ncols_spec() == n,
            forall|i: int, j: int|
                0 <= i < n && 0 <= j < n ==> r@[i][j] == (if i == j {
                    T::one_spec()
                } else {
                    T::zero_spec()
                }),
    {
        let mut rows: Vec<Vec<T>> = Vec::new();
        for i in 0..n
            invariant
                T::dom_ok(),
                rows@.len() == i,
                i <= n,
                forall|k: int| 0 <= k < i ==> (#[trigger] rows@[k])@.len() == n,
                forall|k: int, l: int|
                    0 <= k < i && 0 <= l < n ==> rows@[k]@[l] == (if k == l {
                        T::one_spec()
                    } else {
                        T::zero_spec()
                    }) && (#[trigger] rows@[k]@[l]).wf_el(),
        {
            let mut row: Vec<T> = Vec::new();
            for j in 0..n
                invariant
                    T::dom_ok(),
                    row@.len() == j,
                    j <= n,
                    i < n,
                    forall|l: int|
                        0 <= l < j ==> row@[l] == (if i == l {
                            T::one_spec()
                        } else {
                            T::zero_spec()
                        }) && (#[trigger] row@[l]).wf_el(),
            {
                if i == j {
                    row.push(T::one());
                } else {
                    row.push(T::zero());
                }
            }
            rows.push(row);
        }
        Matrix { rows, cols: n }
    }

    /// An element-for-element copy of this matrix.
    pub fn dup(&self) -> (r: Self)
        requires
            self.wf(),
        ensures
            r@ == self@,
            r.cols == self.cols,
            r.wf(),
    {
        let m = self.rows.len();
        let mut rows: Vec<Vec<T>> = Vec::new();
        for i in 0..m
            invariant
                self.wf(),
                m == self@.len(),
                rows@.len() == i,
                forall|k: int| 0 <= k < i ==> (#[trigger] rows@[k])@ == self@[k],
        {
            let n = self.rows[i].len();
            let mut row: Vec<T> = Vec::new();
            for j in 0..n
                invariant
                    self.wf(),
                    m == self@.len(),
                    i < m,
                    n == self@[i as int].len(),
                    row@.len() == j,
                    j <= n,
                    forall|l: int| 0 <= l < j ==> row@[l] == self@[i as int][l],
            {
                proof {
                    assert(self@[i as int] == self.rows@[i as int]@);
                }
                let x = self.rows[i][j];
                row.push(x);
            }
            proof {
                assert(row@ =~= self@[i as int]);
            }
            rows.push(row);
        }
        let r = Matrix { rows, cols: self.cols };
        proof {
            assert(r@ =~~= self@);
        }
        r
    }

    /// The transpose: entry `(i, j)` of the result is entry `(j, i)` of
    /// `self`.
    pub fn transpose(&self) -> (r: Self)
        requires
            self.wf(),
        ensures
            r.wf(),
            r.nrows_spec() == self.ncols_spec(),
            r.ncols_spec() == self.nrows_spec(),
            forall|i: int, j: int|
                0 <= i < self.ncols_spec() && 0 <= j < self@.len() ==> r@[i][j] == self@[j][i],
    {
        let m = self.rows.len();
        let n = self.cols;
        let mut rows: Vec<Vec<T>> = Vec::new();
        for i in 0..n
            invariant
                self.wf(),
                m == self@.len(),
                n == self.cols,
                rows@.len() == i,
                forall|k: int| 0 <= k < i ==> (#[trigger] rows@[k])@.len() == m,
                forall|k: int, l: int|
                    0 <= k < i && 0 <= l < m ==> rows@[k]@[l] == self@[l][k] && (
                    #[trigger] rows@[k]@[l]).wf_el(),
        {
            let mut row: Vec<T> = Vec::new();
            for j in 0..m
                invariant
                    self.wf(),
                    m == self@.len(),
                    n == self.cols,
                    i < n,
                    row@.len() == j,
                    forall|l: int|
                        0 <= l < j ==> row@[l] == self@[l][i as int] && (#[trigger] row@[l]).wf_el(),
            {
                proof {
                    assert(self@[j as int] == self.rows@[j as int]@);
                }
                let x = self.rows[j][i];
                row.push(x);
            }
            rows.push(row);
        }
        Matrix { rows, cols: m }
    }
}


/// The first index `i >= s` with `m[i][j]` nonzero, if any.
pub open spec fn col_find<T: Scalar>(m: Seq<Seq<T>>, j: int, s: int) -> Option<int>
    decreases m.len() - s,
{
    if s < 0 || s >= m.len() {
        None
    } else if m[s][j] != T::zero_spec() {
        Some(s)
    } else {
        col_find(m, j, s + 1)
    }
}

/// The first index `k >= s` with `row[k]` nonzero, if any.
pub open spec fn row_find<T: Scalar>(row: Seq<T>, s: int) -> Option<int>
    decreases row.len() - s,
{
    if s < 0 || s >= row.len() {
        None
    } else if row[s] != T::zero_spec() {
        Some(s)
    } else {
        row_find(row, s + 1)
    }
}

/// What `col_find` returns: the least nonzero index at or after `s`.
pub proof fn lemma_col_find<T: Scalar>(m: Seq<Seq<T>>, j: int, s: int)
    requires
        0 <= s,
    ensures
        match col_find(m, j, s) {
            Some(i) => s <= i < m.len() && m[i][j] != T::zero_spec() && (forall|k: int|
                s <= k < i ==> m[k][j] == T::zero_spec()),
            None => forall|k: int| s <= k < m.len() ==> m[k][j] == T::zero_spec(),
        },
    decreases m.len() - s,
{
    if s < m.len() && m[s][j] == T::zero_spec() {
        lemma_col_find(m, j, s + 1);
    }
}

/// What `row_find` returns: the least nonzero index at or after `s`.
pub proof fn lemma_row_find<T: Scalar>(row: Seq<T>, s: int)
    requires
        0 <= s,
    ensures
        match row_find(row, s) {
            Some(k) => s <= k < row.len() && row[k] != T::zero_spec() && (forall|l: int|
                s <= l < k ==> row[l] == T::zero_spec()),
            None => forall|l: int| s <= l < row.len() ==> row[l] == T::zero_spec(),
        },
    decreases row.len() - s,
{
    if s < row.len() && row[s] == T::zero_spec() {
        lemma_row_find(row, s + 1);
    }
}

/// Left-folded inner product of the first `k` entries of `u` and `v`.
pub open spec fn dot<T: Scalar>(u: Seq<T>, v: Seq<T>, k: int) -> T
    decreases k,
{
    if k <= 0 {
        T::zero_spec()
    } else {
        dot(u, v, k - 1).add_spec(u[k - 1].mul_spec(v[k - 1]))
    }
}

/// Every product and running sum in `dot(u, v, k)` stays in range.
pub open spec fn dot_ok<T: Scalar>(u: Seq<T>, v: Seq<T>, k: int) -> bool
    decreases k,
{
    if k <= 0 {
        true
    } else {
        &&& dot_ok(u, v, k - 1)
        &&& u[k - 1].mul_ok(v[k - 1])
        &&& dot(u, v, k - 1).add_ok(u[k - 1].mul_spec(v[k - 1]))
    }
}

/// Column `j` of a grid, as a sequence.
pub open spec fn col_seq<T: Scalar>(m: Seq<Seq<T>>, j: int) -> Seq<T> {
    Seq::new(m.len(), |i: int| m[i][j])
}

/// The row `i` of the `n` by `n` identity block.
pub open spec fn unit_row<T: Scalar>(n: int, i: int) -> Seq<T> {
    Seq::new(n as nat, |k: int| if k == i { T::one_spec() } else { T::zero_spec() })
}

/// A grid followed, row by row, by an identity block.
pub open spec fn augment_spec<T: Scalar>(m: Seq<Seq<T>>) -> Seq<Seq<T>> {
    Seq::new(m.len(), |i: int| m[i] + unit_row(m.len() as int, i))
}

impl<T: Scalar> Matrix<T> {
    /// Elementwise sum: every pair of entries stays in range.
    pub open spec fn add_ok_all(self, rhs: Self) -> bool {
        forall|i: int, j: int|
            0 <= i < self@.len() && 0 <= j < self.cols ==> (#[trigger] self@[i][j]).add_ok(
                rhs@[i][j],
            )
    }

    pub open spec fn sub_ok_all(self, rhs: Self) -> bool {
        forall|i: int, j: int|
            0 <= i < self@.len() && 0 <= j < self.cols ==> (#[trigger] self@[i][j]).sub_ok(
                rhs@[i][j],
            )
    }

    /// Elementwise sum of two matrices of equal dimensions.
    pub fn add(&self, rhs: &Self) -> (r: Self)
        requires
            self.wf(),
            rhs.wf(),
            self@.len() == rhs@.len(),
            self.cols == rhs.cols,
            self.add_ok_all(*rhs),
        ensures
            r.wf(),
            r.nrows_spec() == self@.len(),
            r.ncols_spec() == self.cols,
            forall|i: int, j: int|
                0 <= i < self@.len() && 0 <= j < self.cols ==> r@[i][j] == (
                #[trigger] self@[i][j]).add_spec(rhs@[i][j]),
    {
        let m = self.rows.len();
        let n = self.cols;
        let mut rows: Vec<Vec<T>> = Vec::new();
        for i in 0..m
            invariant
                self.wf(),
                rhs.wf(),
                self@.len() == rhs@.len(),
                self.cols == rhs.cols,
                self.add_ok_all(*rhs),
                m == self@.len(),
                n == self.cols,
                rows@.len() == i,
                forall|k: int| 0 <= k < i ==> (#[trigger] rows@[k])@.len() == n,
                forall|k: int, l: int|
                    0 <= k < i && 0 <= l < n ==> #[trigger] rows@[k]@[l] == self@[k][l].add_spec(
                        rhs@[k][l],
                    ) && rows@[k]@[l].wf_el(),
        {
            let mut row: Vec<T> = Vec::new();
            for j in 0..n
                invariant
                    self.wf(),
                    rhs.wf(),
                    self@.len() == rhs@.len(),
                    self.cols == rhs.cols,
                    self.add_ok_all(*rhs),
                    m == self@.len(),
                    n == self.cols,
                    i < m,
                    row@.len() == j,
                    forall|l: int|
                        0 <= l < j ==> #[trigger] row@[l] == self@[i as int][l].add_spec(
                            rhs@[i as int][l],
                        ) && row@[l].wf_el(),
            {
                proof {
                    assert(self@[i as int] == self.rows@[i as int]@);
                    assert(rhs@[i as int] == rhs.rows@[i as int]@);
                }
                let a = self.rows[i][j];
                let b = rhs.rows[i][j];
                proof {
                    assert(a == self@[i as int][j as int]);
                    assert(b == rhs@[i as int][j as int]);
                    assert(a.wf_el() && b.wf_el() && a.add_ok(b));
                }
                let c = a.add_el(b);
                row.push(c);
                proof {
                    assert(row@[j as int] == self@[i as int][j as int].add_spec(
                        rhs@[i as int][j as int],
                    ));
                }
            }
            rows.push(row);
            proof {
                assert(rows@[i as int]@ == row@);
            }
        }
        Matrix { rows, cols: n }
    }

    /// Elementwise difference of two matrices of equal dimensions.
    pub fn sub(&self, rhs: &Self) -> (r: Self)
        requires
            self.wf(),
            rhs.wf(),
            self@.len() == rhs@.len(),
            self.cols == rhs.cols,
            self.sub_ok_all(*rhs),
        ensures
            r.wf(),
            r.nrows_spec() == self@.len(),
            r.ncols_spec() == self.cols,
            forall|i: int, j: int|
                0 <= i < self@.len() && 0 <= j < self.cols ==> r@[i][j] == (
                #[trigger] self@[i][j]).sub_spec(rhs@[i][j]),
    {
        let m = self.rows.len();
        let n = self.cols;
        let mut rows: Vec<Vec<T>> = Vec::new();
        for i in 0..m
            invariant
                self.wf(),
                rhs.wf(),
                self@.len() == rhs@.len(),
                self.cols == rhs.cols,
                self.sub_ok_all(*rhs),
                m == self@.len(),
                n == self.cols,
                rows@.len() == i,
                forall|k: int| 0 <= k < i ==> (#[trigger] rows@[k])@.len() == n,
                forall|k: int, l: int|
                    0 <= k < i && 0 <= l < n ==> #[trigger] rows@[k]@[l] == self@[k][l].sub_spec(
                        rhs@[k][l],
                    ) && rows@[k]@[l].wf_el(),
        {
            let mut row: Vec<T> = Vec::new();
            for j in 0..n
                invariant
                    self.wf(),
                    rhs.wf(),
                    self@.len() == rhs@.len(),
                    self.cols == rhs.cols,
                    self.sub_ok_all(*rhs),
                    m == self@.len(),
                    n == self.cols,
                    i < m,
                    row@.len() == j,
                    forall|l: int|
                        0 <= l < j ==> #[trigger] row@[l] == self@[i as int][l].sub_spec(
                            rhs@[i as int][l],
                        ) && row@[l].wf_el(),
            {
                proof {
                    assert(self@[i as int] == self.rows@[i as int]@);
                    assert(rhs@[i as int] == rhs.rows@[i as int]@);
                }
                let a = self.rows[i][j];
                let b = rhs.rows[i][j];
                proof {
                    assert(a == self@[i as int][j as int]);
                    assert(b == rhs@[i as int][j as int]);
                    assert(a.wf_el() && b.wf_el() && a.sub_ok(b));
                }
                let c = a.sub_el(b);
                row.push(c);
                proof {
                    assert(row@[j as int] == self@[i as int][j as int].sub_spec(
                        rhs@[i as int][j as int],
                    ));
                }
            }
            rows.push(row);
            proof {
                assert(rows@[i as int]@ == row@);
            }
        }
        Matrix { rows, cols: n }
    }

    /// Every inner product of the matrix product stays in range.
    pub open spec fn mul_ok_all(self, rhs: Self) -> bool {
        forall|i: int, j: int|
            0 <= i < self@.len() && 0 <= j < rhs.cols ==> #[trigger] dot_ok(
                self@[i],
                col_seq(rhs@, j),
                self.cols as int,
            )
    }

    /// Matrix product; entry `(i, j)` is the inner product of row `i` of
    /// `self` with column `j` of `rhs`, summed left to right.
    pub fn mul(&self, rhs: &Self) -> (r: Self)
        requires
            self.wf(),
            rhs.wf(),
            self.cols == rhs@.len(),
            self.mul_ok_all(*rhs),
        ensures
            r.wf(),
            r.nrows_spec() == self@.len(),
            r.ncols_spec() == rhs.cols,
            forall|i: int, j: int|
                0 <= i < self@.len() && 0 <= j < rhs.cols ==> #[trigger] r@[i][j] == dot(
                    self@[i],
                    col_seq(rhs@, j),
                    self.cols as int,
                ),
    {
        let m = self.rows.len();
        let n = rhs.cols;
        let inner = self.cols;
        let mut rows: Vec<Vec<T>> = Vec::new();
        for i in 0..m
            invariant
                self.wf(),
                rhs.wf(),
                self.cols == rhs@.len(),
                self.mul_ok_all(*rhs),
                m == self@.len(),
                n == rhs.cols,
                inner == self.cols,
                rows@.len() == i,
                forall|k: int| 0 <= k < i ==> (#[trigger] rows@[k])@.len() == n,
                forall|k: int, l: int|
                    0 <= k < i && 0 <= l < n ==> rows@[k]@[l] == dot(
                        self@[k],
                        col_seq(rhs@, l),
                        inner as int,
                    ) && (#[trigger] rows@[k]@[l]).wf_el(),
        {
            let mut row: Vec<T> = Vec::new();
            for j in 0..n
                invariant
                    self.wf(),
                    rhs.wf(),
                    self.cols == rhs@.len(),
                    self.mul_ok_all(*rhs),
                    m == self@.len(),
                    n == rhs.cols,
                    inner == self.cols,
                    i < m,
                    row@.len() == j,
                    forall|l: int|
                        0 <= l < j ==> row@[l] == dot(self@[i as int], col_seq(rhs@, l), inner as int)
                            && (#[trigger] row@[l]).wf_el(),
            {
                let mut acc = T::zero();
                for k in 0..inner
                    invariant
                        self.wf(),
                        rhs.wf(),
                        self.cols == rhs@.len(),
                        self.mul_ok_all(*rhs),
                        m == self@.len(),
                        n == rhs.cols,
                        inner == self.cols,
                        i < m,
                        j < n,
                        acc == dot(self@[i as int], col_seq(rhs@, j as int), k as int),
                        acc.wf_el(),
                {
                    proof {
                        assert(self@[i as int] == self.rows@[i as int]@);
                        assert(rhs@[k as int] == rhs.rows@[k as int]@);
                        assert(col_seq(rhs@, j as int)[k as int] == rhs@[k as int][j as int]);
                        assert(dot_ok(self@[i as int], col_seq(rhs@, j as int), inner as int));
                        lemma_dot_ok_prefix(self@[i as int], col_seq(rhs@, j as int), (k + 1) as int, inner as int);
                    }
                    let a = self.rows[i][k];
                    let b = rhs.rows[k][j];
                    acc = acc.add_el(a.mul_el(b));
                }
                row.push(acc);
            }
            rows.push(row);
        }
        Matrix { rows, cols: n }
    }

    /// Find the first row at or below `s` whose entry in column `j` is
    /// nonzero.
    pub fn find_nonzero_in_col_after(&self, j: usize, s: usize) -> (r: Option<usize>)
        requires
            self.wf(),
            j < self.cols,
        ensures
            match r {
                Some(i) => col_find(self@, j as int, s as int) == Some(i as int),
                None => col_find(self@, j as int, s as int) is None,
            },
    {
        let m = self.rows.len();
        if s >= m {
            return None;
        }
        let mut i = s;
        while i < m
            invariant
                self.wf(),
                m == self@.len(),
                j < self.cols,
                s <= i <= m,
                col_find(self@, j as int, s as int) == col_find(self@, j as int, i as int),
            decreases m - i,
        {
            proof {
                assert(self@[i as int] == self.rows@[i as int]@);
            }
            let x = self.rows[i][j];
            if !x.is_zero() {
                return Some(i);
            }
            i = i + 1;
        }
        None
    }

    /// Find the first row whose entry in column `j` is nonzero.
    pub fn find_nonzero_in_col(&self, j: usize) -> (r: Option<usize>)
        requires
            self.wf(),
            j < self.cols,
        ensures
            match r {
                Some(i) => col_find(self@, j as int, 0) == Some(i as int),
                None => col_find(self@, j as int, 0) is None,
            },
    {
        self.find_nonzero_in_col_after(j, 0)
    }

    /// Find the first column at or after `s` whose entry in row `i` is
    /// nonzero.
    pub fn find_nonzero_in_row_after(&self, i: usize, s: usize) -> (r: Option<usize>)
        requires
            self.wf(),
            i < self@.len(),
        ensures
            match r {
                Some(k) => row_find(self@[i as int], s as int) == Some(k as int),
                None => row_find(self@[i as int], s as int) is None,
            },
    {
        proof {
            assert(self@[i as int] == self.rows@[i as int]@);
        }
        let n = self.rows[i].len();
        if s >= n {
            return None;
        }
        let mut k = s;
        while k < n
            invariant
                self.wf(),
                i < self@.len(),
                n == self@[i as int].len(),
                s <= k <= n,
                row_find(self@[i as int], s as int) == row_find(self@[i as int], k as int),
            decreases n - k,
        {
            proof {
                assert(self@[i as int] == self.rows@[i as int]@);
            }
            let x = self.rows[i][k];
            if !x.is_zero() {
                return Some(k);
            }
            k = k + 1;
        }
        None
    }

    /// Find the first column whose entry in row `i` is nonzero.
    pub fn find_nonzero_in_row(&self, i: usize) -> (r: Option<usize>)
        requires
            self.wf(),
            i < self@.len(),
        ensures
            match r {
                Some(k) => row_find(self@[i as int], 0) == Some(k as int),
                None => row_find(self@[i as int], 0) is None,
            },
    {
        self.find_nonzero_in_row_after(i, 0)
    }

    /// The matrix followed, row by row, by an identity block: row `i` of the
    /// result is row `i` of `self` with the `i`-th unit row appended.
    pub fn augment(&self) -> (r: Self)
        requires
            self.wf(),
            self.cols + self@.len() <= usize::MAX,
        ensures
            r.wf(),
            r.nrows_spec() == self@.len(),
            r.ncols_spec() == self.cols + self@.len(),
            r@ == augment_spec(self@),
    {
        let m = self.rows.len();
        let n = self.cols;
        let mut rows: Vec<Vec<T>> = Vec::new();
        for i in 0..m
            invariant
                self.wf(),
                m == self@.len(),
                n == self.cols,
                n + m <= usize::MAX,
                rows@.len() == i,
                forall|k: int| 0 <= k < i ==> (#[trigger] rows@[k])@ == augment_spec(self@)[k],
                forall|k: int, l: int|
                    0 <= k < i && 0 <= l < n + m ==> (#[trigger] rows@[k]@[l]).wf_el(),
        {
            let mut row: Vec<T> = Vec::new();
            for j in 0..n
                invariant
                    self.wf(),
                    m == self@.len(),
                    n == self.cols,
                    i < m,
                    row@.len() == j,
                    j <= n,
                    forall|l: int| 0 <= l < j ==> #[trigger] row@[l] == self@[i as int][l],
            {
                proof {
                    assert(self@[i as int] == self.rows@[i as int]@);
                }
                let x = self.rows[i][j];
                row.push(x);
            }
            for j in 0..m
                invariant
                    self.wf(),
                    m == self@.len(),
                    n == self.cols,
                    n + m <= usize::MAX,
                    i < m,
                    row@.len() == n + j,
                    j <= m,
                    forall|l: int| 0 <= l < n ==> #[trigger] row@[l] == self@[i as int][l],
                    forall|l2: int|
                        n <= l2 < n + j ==> #[trigger] row@[l2] == (if l2 - n == i {
                            T::one_spec()
                        } else {
                            T::zero_spec()
                        }) && row@[l2].wf_el(),
            {
                if j == i {
                    row.push(T::one());
                } else {
                    row.push(T::zero());
                }
            }
            proof {
                assert(row@ =~= self@[i as int] + unit_row(m as int, i as int));
                assert forall|l: int| 0 <= l < n + m implies (#[trigger] row@[l]).wf_el() by {
                    if l < n {
                        assert(row@[l] == self@[i as int][l]);
                    }
                }
            }
            rows.push(row);
        }
        let r = Matrix { rows, cols: n + m };
        proof {
            assert(r@ =~~= augment_spec(self@));
            assert forall|i: int, j: int|
                0 <= i < r@.len() && 0 <= j < r.cols implies (#[trigger] r@[i][j]).wf_el() by {
                assert(r@[i][j] == rows@[i]@[j]);
            }
        }
        r
    }
}

/// Rows `a` and `b` exchanged.
pub open spec fn swap_rows<T: Scalar>(m: Seq<Seq<T>>, a: int, b: int) -> Seq<Seq<T>> {
    m.update(a, m[b]).update(b, m[a])
}

/// One elimination step on a row: `d * target[k] - c * pivot[k]` for every
/// column `k`.
pub open spec fn elim_row<T: Scalar>(target: Seq<T>, pivot: Seq<T>, c: T, d: T) -> Seq<T> {
    Seq::new(target.len(), |k: int| d.mul_spec(target[k]).sub_spec(c.mul_spec(pivot[k])))
}

/// Every multiplication and subtraction in `elim_row` stays in range.
pub open spec fn elim_row_ok<T: Scalar>(target: Seq<T>, pivot: Seq<T>, c: T, d: T) -> bool {
    forall|k: int|
        0 <= k < target.len() ==> d.mul_ok(target[k]) && c.mul_ok(pivot[k]) && (
        #[trigger] d.mul_spec(target[k])).sub_ok(c.mul_spec(pivot[k]))
}

/// Eliminate column `j` from rows `i` and below, using row `r` as the pivot
/// row: each row with a nonzero entry in column `j` is rescaled by the
/// lcm-quotients and the pivot row is subtracted.
pub open spec fn elim_below<T: Scalar>(m: Seq<Seq<T>>, r: int, j: int, i: int) -> Seq<Seq<T>>
    decreases m.len() - i,
{
    if i < 0 || i >= m.len() {
        m
    } else if m[i][j] != T::zero_spec() {
        let a = m[r][j];
        let b = m[i][j];
        let l = b.lcm_spec(a);
        let c = l.div_spec(a);
        let d = l.div_spec(b);
        elim_below(m.update(i, elim_row(m[i], m[r], c, d)), r, j, i + 1)
    } else {
        elim_below(m, r, j, i + 1)
    }
}

/// Every scalar operation in `elim_below` stays in range.
pub open spec fn elim_below_ok<T: Scalar>(m: Seq<Seq<T>>, r: int, j: int, i: int) -> bool
    decreases m.len() - i,
{
    if i < 0 || i >= m.len() {
        true
    } else if m[i][j] != T::zero_spec() {
        let a = m[r][j];
        let b = m[i][j];
        let l = b.lcm_spec(a);
        let c = l.div_spec(a);
        let d = l.div_spec(b);
        &&& b.lcm_ok(a)
        &&& l.div_ok(a)
        &&& l.div_ok(b)
        &&& elim_row_ok(m[i], m[r], c, d)
        &&& elim_below_ok(m.update(i, elim_row(m[i], m[r], c, d)), r, j, i + 1)
    } else {
        elim_below_ok(m, r, j, i + 1)
    }
}

/// Row-echelon reduction from column `j` on, with `r` rows already fixed: for
/// each column in turn, swap a nonzero entry into the pivot row and eliminate
/// the column from the rows below.
pub open spec fn ech_from<T: Scalar>(m: Seq<Seq<T>>, cols: int, j: int, r: int) -> Seq<Seq<T>>
    decreases cols - j,
{
    if j < 0 || j >= cols {
        m
    } else {
        match col_find(m, j, r) {
            Option::None => ech_from(m, cols, j + 1, r),
            Option::Some(i) => ech_from(
                elim_below(swap_rows(m, r, i), r, j, r + 1),
                cols,
                j + 1,
                r + 1,
            ),
        }
    }
}

/// Every scalar operation in the echelon reduction stays in range.
pub open spec fn ech_ok<T: Scalar>(m: Seq<Seq<T>>, cols: int, j: int, r: int) -> bool
    decreases cols - j,
{
    if j < 0 || j >= cols {
        true
    } else {
        match col_find(m, j, r) {
            Option::None => ech_ok(m, cols, j + 1, r),
            Option::Some(i) => {
                let m1 = swap_rows(m, r, i);
                &&& elim_below_ok(m1, r, j, r + 1)
                &&& ech_ok(elim_below(m1, r, j, r + 1), cols, j + 1, r + 1)
            },
        }
    }
}

/// The row-echelon form this engine computes for `m`.
pub open spec fn echelon_spec<T: Scalar>(m: Seq<Seq<T>>, cols: int) -> Seq<Seq<T>> {
    ech_from(m, cols, 0, 0)
}

/// The whole reduction of `m` stays in range.
pub open spec fn echelon_ok<T: Scalar>(m: Seq<Seq<T>>, cols: int) -> bool {
    ech_ok(m, cols, 0, 0)
}

/// The rows of `m` whose first `n` entries are all zero, keeping only the
/// remaining entries of each, from row `i` on.
pub open spec fn lnull_from<T: Scalar>(m: Seq<Seq<T>>, n: int, i: int) -> Seq<Seq<T>>
    decreases m.len() - i,
{
    if i < 0 || i >= m.len() {
        Seq::empty()
    } else {
        let rest = lnull_from(m, n, i + 1);
        if forall|k: int| 0 <= k < n ==> m[i][k] == T::zero_spec() {
            seq![m[i].subrange(n, m[i].len() as int)] + rest
        } else {
            rest
        }
    }
}

impl<T: Scalar> Matrix<T> {
    /// Row-echelon form by fraction-free (lcm-scaled) Gaussian elimination,
    /// without changing `self`.  The caller warrants, via `echelon_ok`, that
    /// no scalar operation along the way leaves the machine range.
    ///
    /// `lemma_echelon_form_parity` shows that the result is in row-echelon
    /// form over the parity field, and `lemma_echelon_idempotent` that the
    /// reduction leaves a grid already in echelon form unchanged.
    pub fn to_echelon(&self) -> (res: Self)
        requires
            self.wf(),
            echelon_ok(self@, self.cols as int),
        ensures
            res.wf(),
            res.nrows_spec() == self@.len(),
            res.ncols_spec() == self.cols,
            res@ == echelon_spec(self@, self.cols as int),
    {
        let mut ech = self.dup();
        let nrows = ech.rows.len();
        let cols = ech.cols;
        let mut r: usize = 0;
        for j in 0..cols
            invariant
                ech.wf(),
                ech@.len() == self@.len(),
                ech.cols == cols,
                cols == self.cols,
                nrows == ech@.len(),
                r <= nrows,
                ech_from(ech@, cols as int, j as int, r as int) == echelon_spec(
                    self@,
                    cols as int,
                ),
                ech_ok(ech@, cols as int, j as int, r as int),
        {
            let found = ech.find_nonzero_in_col_after(j, r);
            proof {
                lemma_col_find(ech@, j as int, r as int);
            }
            match found {
                Option::None => {
                },
                Option::Some(i) => {
                    let ghost m0 = ech@;
                    if i != r {
                        let row_i = row_dup(&ech.rows[i]);
                        let row_r = row_dup(&ech.rows[r]);
                        ech.rows.set(i, row_r);
                        ech.rows.set(r, row_i);
                    }
                    proof {
                        assert(ech@ =~~= swap_rows(m0, r as int, i as int));
                    }
                    let ghost m1 = ech@;
                    let a = ech.rows[r][j];
                    proof {
                        assert(ech@[r as int] == ech.rows@[r as int]@);
                        assert(a == m1[r as int][j as int]);
                    }
                    let mut i2: usize = r + 1;
                    while i2 < nrows
                        invariant
                            ech.wf(),
                            ech@.len() == m1.len(),
                            nrows == ech@.len(),
                            ech.cols == cols,
                            r < i2 <= nrows,
                            j < cols,
                            ech@[r as int] == m1[r as int],
                            a == m1[r as int][j as int],
                            elim_below(ech@, r as int, j as int, i2 as int) == elim_below(
                                m1,
                                r as int,
                                j as int,
                                r + 1,
                            ),
                            elim_below_ok(ech@, r as int, j as int, i2 as int),
                        decreases nrows - i2,
                    {
                        proof {
                            assert(ech@[i2 as int] == ech.rows@[i2 as int]@);
                        }
                        let x = ech.rows[i2][j];
                        proof {
                            assert(x == ech@[i2 as int][j as int]);
                        }
                        if !x.is_zero() {
                            let b = x;
                            let l = b.lcm_el(a);
                            let c = l.div_el(a);
                            let d = l.div_el(b);
                            let ghost cur = ech@;
                            let mut newrow: Vec<T> = Vec::new();
                            for k in 0..cols
                                invariant
                                    ech.wf(),
                                    ech@ == cur,
                                    nrows == ech@.len(),
                                    ech.cols == cols,
                                    r < i2 < nrows,
                                    j < cols,
                                    b == cur[i2 as int][j as int],
                                    a == cur[r as int][j as int],
                                    l == b.lcm_spec(a),
                                    c == l.div_spec(a),
                                    d == l.div_spec(b),
                                    l.wf_el(),
                                    c.wf_el(),
                                    d.wf_el(),
                                    elim_row_ok(cur[i2 as int], cur[r as int], c, d),
                                    newrow@.len() == k,
                                    forall|k2: int|
                                        0 <= k2 < k ==> #[trigger] newrow@[k2] == d.mul_spec(
                                            cur[i2 as int][k2],
                                        ).sub_spec(c.mul_spec(cur[r as int][k2]))
                                            && newrow@[k2].wf_el(),
                            {
                                proof {
                                    assert(ech@[i2 as int] == ech.rows@[i2 as int]@);
                                    assert(ech@[r as int] == ech.rows@[r as int]@);
                                    assert(cur[i2 as int].len() == cols);
                                    assert(cur[r as int].len() == cols);
                                    assert(elim_row_ok(cur[i2 as int], cur[r as int], c, d));
                                    assert(d.mul_spec(cur[i2 as int][k as int]).sub_ok(
                                        c.mul_spec(cur[r as int][k as int]),
                                    ));
                                    assert(d.mul_ok(cur[i2 as int][k as int]));
                                    assert(c.mul_ok(cur[r as int][k as int]));
                                }
                                let tk = ech.rows[i2][k];
                                let pk = ech.rows[r][k];
                                let v = d.mul_el(tk).sub_el(c.mul_el(pk));
                                newrow.push(v);
                            }
                            proof {
                                assert(newrow@ =~= elim_row(cur[i2 as int], cur[r as int], c, d));
                            }
                            ech.rows.set(i2, newrow);
                            proof {
                                assert(ech@ =~~= cur.update(
                                    i2 as int,
                                    elim_row(cur[i2 as int], cur[r as int], c, d),
                                ));
                            }
                        }
                        i2 = i2 + 1;
                    }
                    r = r + 1;
                },
            }
        }
        ech
    }

    /// The rows of the echelon form of the augmented matrix whose original
    /// columns are entirely zero, restricted to the identity-block columns:
    /// a spanning set of the left null space.
    ///
    /// `lemma_lnull_span_combination` shows that, over the parity field,
    /// every returned vector combines the original rows to zero.
    pub fn iter_lnull_span(&self) -> (r: Vec<Vec<T>>)
        requires
            self.wf(),
            self.cols + self@.len() <= usize::MAX,
            echelon_ok(augment_spec(self@), self.cols + self@.len()),
        ensures
            r@.map_values(|v: Vec<T>| v@) == lnull_from(
                echelon_spec(augment_spec(self@), self.cols + self@.len()),
                self.cols as int,
                0,
            ),
            forall|t: int| 0 <= t < r@.len() ==> (#[trigger] r@[t])@.len() == self@.len(),
    {
        let aug = self.augment();
        let ech = aug.to_echelon();
        let ghost e = ech@;
        let n = self.cols;
        let nrows = ech.rows.len();
        let width = ech.cols;
        let mut out: Vec<Vec<T>> = Vec::new();
        for i in 0..nrows
            invariant
                ech.wf(),
                nrows == ech@.len(),
                e == ech@,
                width == ech.cols,
                width == n + nrows,
                n == self.cols,
                nrows == self@.len(),
                out@.map_values(|v: Vec<T>| v@) + lnull_from(e, n as int, i as int) == lnull_from(
                    e,
                    n as int,
                    0,
                ),
                forall|t: int| 0 <= t < out@.len() ==> (#[trigger] out@[t])@.len() == nrows,
        {
            let mut allz = true;
            for k in 0..n
                invariant
                    ech.wf(),
                    nrows == ech@.len(),
                    e == ech@,
                    width == ech.cols,
                    n <= width,
                    i < nrows,
                    allz == (forall|k2: int| 0 <= k2 < k ==> e[i as int][k2] == T::zero_spec()),
            {
                proof {
                    assert(ech@[i as int] == ech.rows@[i as int]@);
                }
                let x = ech.rows[i][k];
                if !x.is_zero() {
                    allz = false;
                }
            }
            let ghost old_out = out@;
            if allz {
                let mut v: Vec<T> = Vec::new();
                let mut k = n;
                while k < width
                    invariant
                        ech.wf(),
                        nrows == ech@.len(),
                        e == ech@,
                        width == ech.cols,
                        i < nrows,
                        n <= k <= width,
                        v@.len() == k - n,
                        forall|k2: int|
                            0 <= k2 < k - n ==> #[trigger] v@[k2] == e[i as int][n + k2],
                    decreases width - k,
                {
                    proof {
                        assert(ech@[i as int] == ech.rows@[i as int]@);
                    }
                    let x = ech.rows[i][k];
                    v.push(x);
                    k = k + 1;
                }
                proof {
                    assert(v@ =~= e[i as int].subrange(n as int, e[i as int].len() as int));
                }
                out.push(v);
            }
            proof {
                let oview = old_out.map_values(|vv: Vec<T>| vv@);
                let nview = out@.map_values(|vv: Vec<T>| vv@);
                if allz {
                    assert(nview =~~= oview + seq![
                        e[i as int].subrange(n as int, e[i as int].len() as int),
                    ]);
                } else {
                    assert(nview =~~= oview);
                }
                assert(nview + lnull_from(e, n as int, i + 1) =~~= lnull_from(e, n as int, 0));
            }
        }
        proof {
            assert(out@.map_values(|v: Vec<T>| v@) =~~= lnull_from(e, n as int, 0));
        }
        out
    }
}

/// Positions in row-major order are strictly ordered by (row, column).
proof fn lemma_row_major_index(i1: int, j1: int, i2: int, j2: int, c: int)
    requires
        0 <= i1,
        0 <= j1 < c,
        0 <= j2,
        i1 < i2 || (i1 == i2 && j1 < j2),
    ensures
        i1 * c + j1 < i2 * c + j2,
{
    if i1 < i2 {
        assert((i1 + 1) * c <= i2 * c) by (nonlinear_arith)
            requires
                i1 + 1 <= i2,
                c >= 1,
        ;
        assert((i1 + 1) * c == i1 * c + c) by (nonlinear_arith);
    }
}

impl<T: Scalar> Matrix<T> {
    /// The entries in row-major order.
    pub fn iter_row_major(&self) -> (r: Vec<T>)
        requires
            self.wf(),
            self@.len() * self.cols <= usize::MAX,
        ensures
            r@.len() == self@.len() * self.cols,
            forall|i: int, j: int|
                0 <= i < self@.len() && 0 <= j < self.cols ==> r@[i * self.cols + j]
                    == #[trigger] self@[i][j],
    {
        let m = self.rows.len();
        let n = self.cols;
        let mut r: Vec<T> = Vec::new();
        for i in 0..m
            invariant
                self.wf(),
                m == self@.len(),
                n == self.cols,
                m * n <= usize::MAX,
                r@.len() == i * n,
                i <= m,
                forall|i2: int, j2: int|
                    0 <= i2 < i && 0 <= j2 < n ==> r@[i2 * n + j2] == #[trigger] self@[i2][j2],
        {
            proof {
                assert((i + 1) * n == i * n + n) by (nonlinear_arith);
                assert((i + 1) * n <= m * n) by (nonlinear_arith)
                    requires
                        i + 1 <= m,
                        n >= 0,
                ;
            }
            for j in 0..n
                invariant
                    self.wf(),
                    m == self@.len(),
                    n == self.cols,
                    i < m,
                    i * n + n <= m * n <= usize::MAX,
                    r@.len() == i * n + j,
                    forall|i2: int, j2: int|
                        0 <= i2 < i && 0 <= j2 < n ==> r@[i2 * n + j2] == #[trigger] self@[i2][j2],
                    forall|j2: int| 0 <= j2 < j ==> r@[i * n + j2] == #[trigger] self@[i as int][j2],
            {
                proof {
                    assert(self@[i as int] == self.rows@[i as int]@);
                }
                let x = self.rows[i][j];
                r.push(x);
                proof {
                    assert(r@[i * n + j] == self@[i as int][j as int]);
                    assert forall|i2: int, j2: int|
                        0 <= i2 < i && 0 <= j2 < n implies r@[i2 * n + j2] == #[trigger] self@[i2][j2] by {
                        lemma_row_major_index(i2, j2, i as int, j as int, n as int);
                    }
                    assert forall|j2: int| 0 <= j2 < j implies r@[i * n + j2]
                        == #[trigger] self@[i as int][j2] by {
                        lemma_row_major_index(i as int, j2, i as int, j as int, n as int);
                    }
                }
            }
        }
        r
    }

    /// The entries in row-major order.
    pub fn iter(&self) -> (r: Vec<T>)
        requires
            self.wf(),
            self@.len() * self.cols <= usize::MAX,
        ensures
            r@.len() == self@.len() * self.cols,
            forall|i: int, j: int|
                0 <= i < self@.len() && 0 <= j < self.cols ==> r@[i * self.cols + j]
                    == #[trigger] self@[i][j],
    {
        self.iter_row_major()
    }

    /// The entries in column-major order.
    pub fn iter_col_major(&self) -> (r: Vec<T>)
        requires
            self.wf(),
            self@.len() * self.cols <= usize::MAX,
        ensures
            r@.len() == self@.len() * self.cols,
            forall|i: int, j: int|
                0 <= i < self@.len() && 0 <= j < self.cols ==> r@[j * self@.len() + i]
                    == #[trigger] self@[i][j],
    {
        let m = self.rows.len();
        let n = self.cols;
        proof {
            assert(n * m == m * n) by (nonlinear_arith);
        }
        let mut r: Vec<T> = Vec::new();
        for j in 0..n
            invariant
                self.wf(),
                m == self@.len(),
                n == self.cols,
                m * n <= usize::MAX,
                n * m <= usize::MAX,
                r@.len() == j * m,
                j <= n,
                forall|i2: int, j2: int|
                    0 <= i2 < m && 0 <= j2 < j ==> r@[j2 * m + i2] == #[trigger] self@[i2][j2],
        {
            proof {
                assert((j + 1) * m == j * m + m) by (nonlinear_arith);
                assert((j + 1) * m <= n * m) by (nonlinear_arith)
                    requires
                        j + 1 <= n,
                        m >= 0,
                ;
            }
            for i in 0..m
                invariant
                    self.wf(),
                    m == self@.len(),
                    n == self.cols,
                    j < n,
                    j * m + m <= n * m <= usize::MAX,
                    r@.len() == j * m + i,
                    forall|i2: int, j2: int|
                        0 <= i2 < m && 0 <= j2 < j ==> r@[j2 * m + i2] == #[trigger] self@[i2][j2],
                    forall|i2: int| 0 <= i2 < i ==> r@[j * m + i2] == #[trigger] self@[i2][j as int],
            {
                proof {
                    assert(self@[i as int] == self.rows@[i as int]@);
                }
                let x = self.rows[i][j];
                r.push(x);
                proof {
                    assert(r@[j * m + i] == self@[i as int][j as int]);
                    assert forall|i2: int, j2: int|
                        0 <= i2 < m && 0 <= j2 < j implies r@[j2 * m + i2] == #[trigger] self@[i2][j2] by {
                        lemma_row_major_index(j2, i2, j as int, i as int, m as int);
                    }
                    assert forall|i2: int| 0 <= i2 < i implies r@[j * m + i2]
                        == #[trigger] self@[i2][j as int] by {
                        lemma_row_major_index(j as int, i2, j as int, i as int, m as int);
                    }
                }
            }
        }
        r
    }

    /// The entries of row `i`.
    pub fn iter_row(&self, i: usize) -> (r: Vec<T>)
        requires
            self.wf(),
            i < self@.len(),
        ensures
            r@ == self@[i as int],
    {
        proof {
            assert(self@[i as int] == self.rows@[i as int]@);
        }
        row_dup(&self.rows[i])
    }

    /// The entries of column `j`.
    pub fn iter_col(&self, j: usize) -> (r: Vec<T>)
        requires
            self.wf(),
            j < self.cols,
        ensures
            r@ == col_seq(self@, j as int),
    {
        let m = self.rows.len();
        let mut r: Vec<T> = Vec::new();
        for i in 0..m
            invariant
                self.wf(),
                m == self@.len(),
                j < self.cols,
                r@.len() == i,
                forall|i2: int| 0 <= i2 < i ==> #[trigger] r@[i2] == self@[i2][j as int],
        {
            proof {
                assert(self@[i as int] == self.rows@[i as int]@);
            }
            let x = self.rows[i][j];
            r.push(x);
        }
        proof {
            assert(r@ =~= col_seq(self@, j as int));
        }
        r
    }

    /// The entries of column `j`, or an error when there is no such column.
    pub fn col(&self, j: usize) -> (r: Result<Vec<T>, ()>)
        requires
            self.wf(),
        ensures
            match r {
                Ok(v) => j < self.cols && v@ == col_seq(self@, j as int),
                Err(_) => j >= self.cols,
            },
    {
        if j < self.cols {
            Ok(self.iter_col(j))
        } else {
            Err(())
        }
    }

    /// The entries on the main diagonal.
    pub fn iter_diag(&self) -> (r: Vec<T>)
        requires
            self.wf(),
        ensures
            r@.len() == vstd::math::min(self@.len() as int, self.cols as int),
            forall|k: int| 0 <= k < r@.len() ==> #[trigger] r@[k] == self@[k][k],
    {
        let m = self.rows.len();
        let n = self.cols;
        let d = if m < n {
            m
        } else {
            n
        };
        let mut r: Vec<T> = Vec::new();
        for k in 0..d
            invariant
                self.wf(),
                m == self@.len(),
                n == self.cols,
                d == vstd::math::min(m as int, n as int),
                r@.len() == k,
                forall|k2: int| 0 <= k2 < k ==> #[trigger] r@[k2] == self@[k2][k2],
        {
            proof {
                assert(self@[k as int] == self.rows@[k as int]@);
            }
            let x = self.rows[k][k];
            r.push(x);
        }
        r
    }

    /// The entries on the `j`-th superdiagonal: positions `(k, k + j)`.
    pub fn iter_supdiag(&self, j: usize) -> (r: Vec<T>)
        requires
            self.wf(),
        ensures
            forall|k: int| 0 <= k < r@.len() ==> #[trigger] r@[k] == self@[k][k + j],
            r@.len() == (if self.cols >= j {
                vstd::math::min(self@.len() as int, self.cols - j)
            } else {
                0
            }),
    {
        let m = self.rows.len();
        let n = self.cols;
        let d = if n >= j {
            if m < n - j {
                m
            } else {
                n - j
            }
        } else {
            0
        };
        let mut r: Vec<T> = Vec::new();
        for k in 0..d
            invariant
                self.wf(),
                m == self@.len(),
                n == self.cols,
                d == 0 || (d <= m && d + j <= n),
                r@.len() == k,
                forall|k2: int| 0 <= k2 < k ==> #[trigger] r@[k2] == self@[k2][k2 + j],
        {
            proof {
                assert(self@[k as int] == self.rows@[k as int]@);
            }
            let x = self.rows[k][k + j];
            r.push(x);
        }
        r
    }

    /// The entries on the `i`-th subdiagonal: positions `(k + i, k)`.
    pub fn iter_subdiag(&self, i: usize) -> (r: Vec<T>)
        requires
            self.wf(),
        ensures
            forall|k: int| 0 <= k < r@.len() ==> #[trigger] r@[k] == self@[k + i][k],
            r@.len() == (if self@.len() >= i {
                vstd::math::min(self@.len() - i, self.cols as int)
            } else {
                0
            }),
    {
        let m = self.rows.len();
        let n = self.cols;
        let d = if m >= i {
            if m - i < n {
                m - i
            } else {
                n
            }
        } else {
            0
        };
        let mut r: Vec<T> = Vec::new();
        for k in 0..d
            invariant
                self.wf(),
                m == self@.len(),
                n == self.cols,
                d == 0 || (d + i <= m && d <= n),
                r@.len() == k,
                forall|k2: int| 0 <= k2 < k ==> #[trigger] r@[k2] == self@[k2 + i][k2],
        {
            proof {
                assert(self@[(k + i) as int] == self.rows@[(k + i) as int]@);
            }
            let x = self.rows[k + i][k];
            r.push(x);
        }
        r
    }
}

/// The pivot of a row: the position of its first nonzero entry.
pub open spec fn row_pivot<T: Scalar>(row: Seq<T>) -> Option<int> {
    row_find(row, 0)
}

/// The grid is in row-echelon form: pivot positions strictly increase from
/// each row to the next, and the all-zero rows come last.
pub open spec fn echelon_pair<T: Scalar>(a: Seq<T>, b: Seq<T>) -> bool {
    match (row_pivot(a), row_pivot(b)) {
        (Option::Some(p1), Option::Some(p2)) => p1 < p2,
        (Option::Some(p1), Option::None) => true,
        (Option::None, Option::Some(p2)) => false,
        (Option::None, Option::None) => true,
    }
}

pub open spec fn is_echelon<T: Scalar>(m: Seq<Seq<T>>) -> bool {
    forall|i: int| 0 <= i < m.len() - 1 ==> #[trigger] echelon_pair(m[i], m[i + 1])
}

/// In an echelon grid, pivots increase between any two rows.
proof fn lemma_echelon_monotone<T: Scalar>(m: Seq<Seq<T>>, i1: int, i2: int)
    requires
        is_echelon(m),
        0 <= i1 < i2 < m.len(),
        row_pivot(m[i2]) is Some,
    ensures
        row_pivot(m[i1]) is Some,
        row_pivot(m[i1]).unwrap() < row_pivot(m[i2]).unwrap(),
    decreases i2 - i1,
{
    if i1 + 1 < i2 {
        lemma_echelon_monotone(m, i1 + 1, i2);
    }
    assert(echelon_pair(m[i1], m[i1 + 1]));
}

/// A row with a nonzero entry in column `j` has a pivot at or before `j`.
proof fn lemma_pivot_at_most<T: Scalar>(row: Seq<T>, j: int)
    requires
        0 <= j < row.len(),
        row[j] != T::zero_spec(),
    ensures
        row_pivot(row) is Some,
        0 <= row_pivot(row).unwrap() <= j,
{
    lemma_row_find(row, 0);
}

/// Eliminating below a pivot whose column is already zero below changes
/// nothing.
proof fn lemma_elim_below_noop<T: Scalar>(m: Seq<Seq<T>>, r: int, j: int, i: int)
    requires
        forall|k: int| i <= k < m.len() ==> #[trigger] m[k][j] == T::zero_spec(),
    ensures
        elim_below(m, r, j, i) == m,
    decreases m.len() - i,
{
    if 0 <= i < m.len() {
        lemma_elim_below_noop(m, r, j, i + 1);
    }
}

/// From column `j` on, with the first `r` rows already fixed and every later
/// pivot at or past `j`, the reduction leaves an echelon grid unchanged.
proof fn lemma_ech_from_fixed<T: Scalar>(m: Seq<Seq<T>>, cols: int, j: int, r: int)
    requires
        forall|i: int| 0 <= i < m.len() ==> (#[trigger] m[i]).len() == cols,
        is_echelon(m),
        0 <= j,
        0 <= r <= m.len(),
        forall|i: int|
            r <= i < m.len() && (#[trigger] row_pivot(m[i])) is Some ==> row_pivot(
                m[i],
            ).unwrap() >= j,
    ensures
        ech_from(m, cols, j, r) == m,
    decreases cols - j,
{
    if 0 <= j < cols {
        lemma_col_find(m, j, r);
        match col_find(m, j, r) {
            Option::None => {
                assert forall|i: int|
                    r <= i < m.len() && (#[trigger] row_pivot(m[i])) is Some implies row_pivot(
                    m[i],
                ).unwrap() >= j + 1 by {
                    lemma_row_find(m[i], 0);
                    if row_pivot(m[i]).unwrap() == j {
                        assert(m[i][j] != T::zero_spec());
                    }
                }
                lemma_ech_from_fixed(m, cols, j + 1, r);
            },
            Option::Some(u) => {
                // the pivot found is row r itself
                assert(m[u][j] != T::zero_spec());
                lemma_pivot_at_most(m[u], j);
                assert(row_pivot(m[u]).unwrap() == j);
                if u > r {
                    lemma_echelon_monotone(m, r, u);
                    assert(row_pivot(m[r]).unwrap() >= j);
                    assert(false);
                }
                assert(u == r);
                assert(swap_rows(m, r, r) =~~= m);
                // every row below r is zero in column j
                assert forall|k: int| r + 1 <= k < m.len() implies #[trigger] m[k][j]
                    == T::zero_spec() by {
                    if m[k][j] != T::zero_spec() {
                        lemma_pivot_at_most(m[k], j);
                        lemma_echelon_monotone(m, r, k);
                        assert(row_pivot(m[k]).unwrap() >= j);
                        assert(row_pivot(m[r]).unwrap() < j);
                    }
                }
                lemma_elim_below_noop(m, r, j, r + 1);
                // later rows have pivots past j
                assert forall|i: int|
                    r + 1 <= i < m.len() && (#[trigger] row_pivot(m[i])) is Some
                    implies row_pivot(m[i]).unwrap() >= j + 1 by {
                    lemma_echelon_monotone(m, r, i);
                }
                lemma_ech_from_fixed(m, cols, j + 1, r + 1);
                assert(ech_from(m, cols, j, r) == ech_from(
                    elim_below(swap_rows(m, r, u), r, j, r + 1),
                    cols,
                    j + 1,
                    r + 1,
                ));
            },
        }
    }
}

/// Echelon reduction is idempotent: on a grid already in row-echelon form it
/// is the identity, so reducing a reduced matrix returns an equal matrix.
pub proof fn lemma_echelon_idempotent<T: Scalar>(m: Seq<Seq<T>>, cols: int)
    requires
        forall|i: int| 0 <= i < m.len() ==> (#[trigger] m[i]).len() == cols,
        is_echelon(m),
        0 <= cols,
    ensures
        echelon_spec(m, cols) == m,
{
    assert forall|i: int|
        0 <= i < m.len() && (#[trigger] row_pivot(m[i])) is Some implies row_pivot(
        m[i],
    ).unwrap() >= 0 by {
        lemma_row_find(m[i], 0);
    }
    lemma_ech_from_fixed(m, cols, 0, 0);
}

/// The residues modulo two, the ring the sieve's parity matrices live in.
pub type Parity = CongruenceClass<2>;

/// The weighted sum `v[0] * m[0][j] + .. + v[k-1] * m[k-1][j]` of column `j`
/// of the original rows, with parity coefficients.
pub open spec fn row_combination(v: Seq<Parity>, m: Seq<Seq<Parity>>, j: int, k: int) -> Parity
    decreases k,
{
    if k <= 0 {
        <Parity as Scalar>::zero_spec()
    } else {
        row_combination(v, m, j, k - 1).add_spec(v[k - 1].mul_spec(m[k - 1][j]))
    }
}

/// A parity combination of reduced values is reduced.
proof fn lemma_combination_reduced(v: Seq<Parity>, m: Seq<Seq<Parity>>, j: int, k: int)
    ensures
        row_combination(v, m, j, k).reduced(),
    decreases k,
{
    if k <= 0 {
    } else {
        lemma_combination_reduced(v, m, j, k - 1);
        vstd::arithmetic::div_mod::lemma_mod_bound(
            row_combination(v, m, j, k - 1).rep() + v[k - 1].mul_spec(m[k - 1][j]).rep(),
            2,
        );
        vstd::arithmetic::div_mod::lemma_mod_bound(v[k - 1].rep() * m[k - 1][j].rep(), 2);
    }
}

/// Every row of the working grid is the combination of the original rows
/// recorded in its trailing coefficient block.
pub open spec fn tracks(w: Seq<Seq<Parity>>, m: Seq<Seq<Parity>>, n: int) -> bool {
    forall|t: int, j: int|
        0 <= t < w.len() && 0 <= j < n ==> #[trigger] w[t][j] == row_combination(
            w[t].subrange(n, w[t].len() as int),
            m,
            j,
            m.len() as int,
        )
}

/// The combination under a unit coefficient vector picks out one row.
proof fn lemma_combination_unit(m: Seq<Seq<Parity>>, n: int, t: int, j: int, k: int)
    requires
        grid_wf(m, n),
        0 <= j < n,
        0 <= t < m.len(),
        0 <= k <= m.len(),
    ensures
        row_combination(unit_row(m.len() as int, t), m, j, k) == (if t < k {
            m[t][j]
        } else {
            <Parity as Scalar>::zero_spec()
        }),
    decreases k,
{
    let u = unit_row::<Parity>(m.len() as int, t);
    if k > 0 {
        lemma_combination_unit(m, n, t, j, k - 1);
        let acc = row_combination(u, m, j, k - 1);
        lemma_combination_reduced(u, m, j, k - 1);
        assert(m[k - 1][j].reduced());
        let x = m[k - 1][j];
        let p = u[k - 1].mul_spec(x);
        let sm = acc.add_spec(p);
        vstd::arithmetic::div_mod::lemma_mod_bound(u[k - 1].rep() * x.rep(), 2);
        assert(p.rep() == (u[k - 1].rep() * x.rep()) % 2);
        vstd::arithmetic::div_mod::lemma_mod_bound(acc.rep() + p.rep(), 2);
        assert(sm.rep() == (acc.rep() + p.rep()) % 2);
        vstd::arithmetic::div_mod::lemma_small_mod(x.0 as nat, 2nat);
        vstd::arithmetic::div_mod::lemma_small_mod(acc.0 as nat, 2nat);
        if t == k - 1 {
            assert(u[k - 1] == <Parity as Scalar>::one_spec());
            assert(acc == <Parity as Scalar>::zero_spec());
            assert(u[k - 1].rep() == 1);
            assert(1 * x.rep() == x.rep());
            assert(p.rep() == x.rep());
            assert(sm.rep() == x.rep());
            assert(sm.0 == x.0);
            assert(sm == x);
        } else {
            assert(u[k - 1] == <Parity as Scalar>::zero_spec());
            assert(u[k - 1].rep() == 0);
            assert(0 * x.rep() == 0);
            vstd::arithmetic::div_mod::lemma_small_mod(0nat, 2nat);
            assert(p.rep() == 0);
            assert(sm.rep() == acc.rep());
            assert(sm.0 == acc.0);
            assert(sm == acc);
        }
    }
}

/// Combinations are linear: the combination under `d * v1 - c * v2` is
/// `d` times the one under `v1` minus `c` times the one under `v2`.
proof fn lemma_combination_linear(
    v1: Seq<Parity>,
    v2: Seq<Parity>,
    ve: Seq<Parity>,
    m: Seq<Seq<Parity>>,
    c: Parity,
    d: Parity,
    j: int,
    k: int,
)
    requires
        forall|u: int, j2: int|
            0 <= u < m.len() && 0 <= j2 < m[u].len() ==> (#[trigger] m[u][j2]).reduced(),
        forall|u: int| 0 <= u < m.len() ==> j < (#[trigger] m[u]).len(),
        c.reduced(),
        d.reduced(),
        forall|u: int| 0 <= u < v1.len() ==> (#[trigger] v1[u]).reduced(),
        forall|u: int| 0 <= u < v2.len() ==> (#[trigger] v2[u]).reduced(),
        ve.len() >= k,
        v1.len() >= k,
        v2.len() >= k,
        forall|u: int|
            0 <= u < k ==> #[trigger] ve[u] == d.mul_spec(v1[u]).sub_spec(c.mul_spec(v2[u])),
        0 <= j,
        k <= m.len(),
    ensures
        row_combination(ve, m, j, k) == d.mul_spec(row_combination(v1, m, j, k)).sub_spec(
            c.mul_spec(row_combination(v2, m, j, k)),
        ),
    decreases k,
{
    vstd::arithmetic::div_mod::lemma_mod_bound(0int, 2int);
    if k <= 0 {
        let z = <Parity as Scalar>::zero_spec();
        assert(d.mul_spec(z).sub_spec(c.mul_spec(z)) == z) by {
            assert(d.rep() * 0 == 0) by (nonlinear_arith);
            assert(c.rep() * 0 == 0) by (nonlinear_arith);
            vstd::arithmetic::div_mod::lemma_small_mod(0nat, 2nat);
        }
    } else {
        lemma_combination_linear(v1, v2, ve, m, c, d, j, k - 1);
        lemma_combination_reduced(v1, m, j, k - 1);
        lemma_combination_reduced(v2, m, j, k - 1);
        let a1 = row_combination(v1, m, j, k - 1);
        let a2 = row_combination(v2, m, j, k - 1);
        let x = m[k - 1][j];
        let w1 = v1[k - 1];
        let w2 = v2[k - 1];
        assert(x.reduced());
        // the grid entries, coefficients and partial sums are all bits; the
        // distributivity identity is a finite check on their residues
        lemma_parity_distributes(a1, a2, x, w1, w2, c, d);
    }
}

/// The one-step distributivity fact over the residues modulo two, checked on
/// the (finitely many) reduced representatives.
proof fn lemma_parity_distributes(
    a1: Parity,
    a2: Parity,
    x: Parity,
    w1: Parity,
    w2: Parity,
    c: Parity,
    d: Parity,
)
    requires
        a1.reduced(),
        a2.reduced(),
        x.reduced(),
        w1.reduced(),
        w2.reduced(),
        c.reduced(),
        d.reduced(),
    ensures
        d.mul_spec(a1).sub_spec(c.mul_spec(a2)).add_spec(
            d.mul_spec(w1).sub_spec(c.mul_spec(w2)).mul_spec(x),
        ) == d.mul_spec(a1.add_spec(w1.mul_spec(x))).sub_spec(
            c.mul_spec(a2.add_spec(w2.mul_spec(x))),
        ),
{
    let av1 = a1.rep();
    let av2 = a2.rep();
    let xv = x.rep();
    let wv1 = w1.rep();
    let wv2 = w2.rep();
    let cv = c.rep();
    let dv = d.rep();
    // bridge each operation to its representative arithmetic
    vstd::arithmetic::div_mod::lemma_mod_bound(dv * av1, 2);
    vstd::arithmetic::div_mod::lemma_mod_bound(cv * av2, 2);
    let p1 = (dv * av1) % 2;
    let p2 = (cv * av2) % 2;
    assert(d.mul_spec(a1).rep() == p1);
    assert(c.mul_spec(a2).rep() == p2);
    vstd::arithmetic::div_mod::lemma_mod_bound(p1 - p2, 2);
    let s1 = (p1 - p2) % 2;
    assert(d.mul_spec(a1).sub_spec(c.mul_spec(a2)).rep() == s1);
    vstd::arithmetic::div_mod::lemma_mod_bound(dv * wv1, 2);
    vstd::arithmetic::div_mod::lemma_mod_bound(cv * wv2, 2);
    let q1 = (dv * wv1) % 2;
    let q2 = (cv * wv2) % 2;
    assert(d.mul_spec(w1).rep() == q1);
    assert(c.mul_spec(w2).rep() == q2);
    vstd::arithmetic::div_mod::lemma_mod_bound(q1 - q2, 2);
    let s2 = (q1 - q2) % 2;
    assert(d.mul_spec(w1).sub_spec(c.mul_spec(w2)).rep() == s2);
    vstd::arithmetic::div_mod::lemma_mod_bound(s2 * xv, 2);
    let t1 = (s2 * xv) % 2;
    assert(d.mul_spec(w1).sub_spec(c.mul_spec(w2)).mul_spec(x).rep() == t1);
    vstd::arithmetic::div_mod::lemma_mod_bound(s1 + t1, 2);
    let lhs = (s1 + t1) % 2;
    assert(d.mul_spec(a1).sub_spec(c.mul_spec(a2)).add_spec(
        d.mul_spec(w1).sub_spec(c.mul_spec(w2)).mul_spec(x),
    ).rep() == lhs);
    vstd::arithmetic::div_mod::lemma_mod_bound(wv1 * xv, 2);
    vstd::arithmetic::div_mod::lemma_mod_bound(wv2 * xv, 2);
    let u1 = (wv1 * xv) % 2;
    let u2 = (wv2 * xv) % 2;
    assert(w1.mul_spec(x).rep() == u1);
    assert(w2.mul_spec(x).rep() == u2);
    vstd::arithmetic::div_mod::lemma_mod_bound(av1 + u1, 2);
    vstd::arithmetic::div_mod::lemma_mod_bound(av2 + u2, 2);
    let r1 = (av1 + u1) % 2;
    let r2 = (av2 + u2) % 2;
    assert(a1.add_spec(w1.mul_spec(x)).rep() == r1);
    assert(a2.add_spec(w2.mul_spec(x)).rep() == r2);
    vstd::arithmetic::div_mod::lemma_mod_bound(dv * r1, 2);
    vstd::arithmetic::div_mod::lemma_mod_bound(cv * r2, 2);
    let m1 = (dv * r1) % 2;
    let m2 = (cv * r2) % 2;
    assert(d.mul_spec(a1.add_spec(w1.mul_spec(x))).rep() == m1);
    assert(c.mul_spec(a2.add_spec(w2.mul_spec(x))).rep() == m2);
    vstd::arithmetic::div_mod::lemma_mod_bound(m1 - m2, 2);
    let rhs = (m1 - m2) % 2;
    assert(d.mul_spec(a1.add_spec(w1.mul_spec(x))).sub_spec(
        c.mul_spec(a2.add_spec(w2.mul_spec(x))),
    ).rep() == rhs);
    // the identity itself, over bit representatives
    assert(lhs == rhs) by (nonlinear_arith)
        requires
            0 <= av1 < 2,
            0 <= av2 < 2,
            0 <= xv < 2,
            0 <= wv1 < 2,
            0 <= wv2 < 2,
            0 <= cv < 2,
            0 <= dv < 2,
            p1 == (dv * av1) % 2,
            p2 == (cv * av2) % 2,
            s1 == (p1 - p2) % 2,
            q1 == (dv * wv1) % 2,
            q2 == (cv * wv2) % 2,
            s2 == (q1 - q2) % 2,
            t1 == (s2 * xv) % 2,
            lhs == (s1 + t1) % 2,
            u1 == (wv1 * xv) % 2,
            u2 == (wv2 * xv) % 2,
            r1 == (av1 + u1) % 2,
            r2 == (av2 + u2) % 2,
            m1 == (dv * r1) % 2,
            m2 == (cv * r2) % 2,
            rhs == (m1 - m2) % 2,
    ;
    let le = d.mul_spec(a1).sub_spec(c.mul_spec(a2)).add_spec(
        d.mul_spec(w1).sub_spec(c.mul_spec(w2)).mul_spec(x),
    );
    let ri = d.mul_spec(a1.add_spec(w1.mul_spec(x))).sub_spec(
        c.mul_spec(a2.add_spec(w2.mul_spec(x))),
    );
    assert(le.0 as int == le.rep() && ri.0 as int == ri.rep());
    assert(le.0 == ri.0);
    assert(le == ri);
}

/// The augmented matrix tracks: each of its rows combines the original rows
/// with its own unit coefficients.
proof fn lemma_tracks_augment(m: Seq<Seq<Parity>>, n: int)
    requires
        grid_wf(m, n),
        n >= 0,
    ensures
        tracks(augment_spec(m), m, n),
{
    let w = augment_spec(m);
    assert forall|t: int, j: int|
        0 <= t < w.len() && 0 <= j < n implies #[trigger] w[t][j] == row_combination(
        w[t].subrange(n, w[t].len() as int),
        m,
        j,
        m.len() as int,
    ) by {
        assert(w[t] == m[t] + unit_row(m.len() as int, t));
        assert(w[t].subrange(n, w[t].len() as int) =~= unit_row(m.len() as int, t));
        lemma_combination_unit(m, n, t, j, m.len() as int);
        assert(w[t][j] == m[t][j]);
    }
}

/// Combinations only read the first `m.len()` coefficients.
proof fn lemma_combination_prefix(
    v1: Seq<Parity>,
    v2: Seq<Parity>,
    m: Seq<Seq<Parity>>,
    j: int,
    k: int,
)
    requires
        forall|u: int| 0 <= u < k ==> v1[u] == v2[u],
    ensures
        row_combination(v1, m, j, k) == row_combination(v2, m, j, k),
    decreases k,
{
    if k > 0 {
        lemma_combination_prefix(v1, v2, m, j, k - 1);
    }
}

/// Exchanging two rows keeps the tracking property.
proof fn lemma_tracks_swap(w: Seq<Seq<Parity>>, m: Seq<Seq<Parity>>, n: int, a: int, b: int)
    requires
        tracks(w, m, n),
        0 <= a < w.len(),
        0 <= b < w.len(),
    ensures
        tracks(swap_rows(w, a, b), m, n),
{
    let ws = swap_rows(w, a, b);
    assert forall|t: int, j: int|
        0 <= t < ws.len() && 0 <= j < n implies #[trigger] ws[t][j] == row_combination(
        ws[t].subrange(n, ws[t].len() as int),
        m,
        j,
        m.len() as int,
    ) by {
        assert(ws[t] == w[a] || ws[t] == w[b] || ws[t] == w[t]);
    }
}

/// One elimination pass keeps the tracking property, provided the working
/// grid is well formed.
proof fn lemma_tracks_elim(w: Seq<Seq<Parity>>, m: Seq<Seq<Parity>>, n: int, cols: int, r: int, j: int, i: int)
    requires
        tracks(w, m, n),
        grid_wf(w, cols),
        grid_wf(m, n),
        0 <= n,
        n + m.len() <= cols,
        0 <= r < w.len(),
        0 <= j < cols,
    ensures
        tracks(elim_below(w, r, j, i), m, n),
        grid_wf(elim_below(w, r, j, i), cols),
        elim_below(w, r, j, i).len() == w.len(),
    decreases w.len() - i,
{
    if 0 <= i < w.len() {
        if w[i][j] != <Parity as Scalar>::zero_spec() {
            let a = w[r][j];
            let b = w[i][j];
            let l = b.lcm_spec(a);
            let c = l.div_spec(a);
            let d = l.div_spec(b);
            let row = elim_row(w[i], w[r], c, d);
            vstd::arithmetic::div_mod::lemma_mod_bound(l.rep() * inv_mod(a.rep(), 2), 2);
            vstd::arithmetic::div_mod::lemma_mod_bound(l.rep() * inv_mod(b.rep(), 2), 2);
            assert(c.reduced() && d.reduced());
            assert forall|k2: int| 0 <= k2 < row.len() implies (#[trigger] row[k2]).reduced() by {
                vstd::arithmetic::div_mod::lemma_mod_bound(
                    d.mul_spec(w[i][k2]).rep() - c.mul_spec(w[r][k2]).rep(),
                    2,
                );
            }
            let w2 = w.update(i, row);
            assert(grid_wf(w2, cols));
            // the new row still tracks: its prefix and its coefficients are
            // both the same linear mixture of the old ones
            assert forall|jj: int| 0 <= jj < n implies #[trigger] row[jj] == row_combination(
                row.subrange(n, row.len() as int),
                m,
                jj,
                m.len() as int,
            ) by {
                let vi = w[i].subrange(n, w[i].len() as int);
                let vr = w[r].subrange(n, w[r].len() as int);
                let ve = row.subrange(n, row.len() as int);
                assert forall|u: int| 0 <= u < m.len() implies #[trigger] ve[u] == d.mul_spec(
                    vi[u],
                ).sub_spec(c.mul_spec(vr[u])) by {
                    assert(ve[u] == row[n + u]);
                    assert(row[n + u] == d.mul_spec(w[i][n + u]).sub_spec(
                        c.mul_spec(w[r][n + u]),
                    ));
                }
                assert forall|u: int| 0 <= u < vi.len() implies (#[trigger] vi[u]).reduced() by {
                    assert(vi[u] == w[i][n + u]);
                }
                assert forall|u: int| 0 <= u < vr.len() implies (#[trigger] vr[u]).reduced() by {
                    assert(vr[u] == w[r][n + u]);
                }
                lemma_combination_linear(vi, vr, ve, m, c, d, jj, m.len() as int);
                assert(row[jj] == d.mul_spec(w[i][jj]).sub_spec(c.mul_spec(w[r][jj])));
            }
            assert forall|t: int, jj: int|
                0 <= t < w2.len() && 0 <= jj < n implies #[trigger] w2[t][jj] == row_combination(
                w2[t].subrange(n, w2[t].len() as int),
                m,
                jj,
                m.len() as int,
            ) by {
                if t != i {
                    assert(w2[t] == w[t]);
                }
            }
            lemma_tracks_elim(w2, m, n, cols, r, j, i + 1);
        } else {
            lemma_tracks_elim(w, m, n, cols, r, j, i + 1);
        }
    }
}

/// The whole echelon reduction keeps the tracking property.
proof fn lemma_tracks_ech(w: Seq<Seq<Parity>>, m: Seq<Seq<Parity>>, n: int, cols: int, j: int, r: int)
    requires
        tracks(w, m, n),
        grid_wf(w, cols),
        grid_wf(m, n),
        0 <= n,
        n + m.len() <= cols,
        0 <= j,
        0 <= r,
    ensures
        tracks(ech_from(w, cols, j, r), m, n),
        grid_wf(ech_from(w, cols, j, r), cols),
        ech_from(w, cols, j, r).len() == w.len(),
    decreases cols - j,
{
    if 0 <= j < cols {
        match col_find(w, j, r) {
            Option::None => {
                lemma_tracks_ech(w, m, n, cols, j + 1, r);
            },
            Option::Some(i) => {
                lemma_col_find(w, j, r);
                let w1 = swap_rows(w, r, i);
                lemma_tracks_swap(w, m, n, r, i);
                assert(grid_wf(w1, cols)) by {
                    assert forall|t: int| 0 <= t < w1.len() implies (#[trigger] w1[t]).len()
                        == cols by {
                        assert(w1[t] == w[r] || w1[t] == w[i] || w1[t] == w[t]);
                    }
                    assert forall|t: int, k2: int|
                        0 <= t < w1.len() && 0 <= k2 < cols implies (
                    #[trigger] w1[t][k2]).reduced() by {
                        assert(w1[t] == w[r] || w1[t] == w[i] || w1[t] == w[t]);
                    }
                }
                lemma_tracks_elim(w1, m, n, cols, r, j, r + 1);
                lemma_tracks_ech(elim_below(w1, r, j, r + 1), m, n, cols, j + 1, r + 1);
            },
        }
    }
}

/// The combinations of the null-space listing all vanish, from row `i` on.
proof fn lemma_lnull_zero(e: Seq<Seq<Parity>>, m: Seq<Seq<Parity>>, n: int, i: int, t: int, j: int)
    requires
        tracks(e, m, n),
        0 <= n,
        0 <= j < n,
        0 <= i,
        0 <= t < lnull_from(e, n, i).len(),
    ensures
        row_combination(lnull_from(e, n, i)[t], m, j, m.len() as int)
            == <Parity as Scalar>::zero_spec(),
    decreases e.len() - i,
{
    if 0 <= i < e.len() {
        let rest = lnull_from(e, n, i + 1);
        if forall|k2: int| 0 <= k2 < n ==> e[i][k2] == <Parity as Scalar>::zero_spec() {
            if t == 0 {
                let v = e[i].subrange(n, e[i].len() as int);
                assert(lnull_from(e, n, i)[0] == v);
                assert(e[i][j] == row_combination(v, m, j, m.len() as int));
                assert(e[i][j] == <Parity as Scalar>::zero_spec());
            } else {
                assert(lnull_from(e, n, i)[t] == rest[t - 1]);
                lemma_lnull_zero(e, m, n, i + 1, t - 1, j);
            }
        } else {
            lemma_lnull_zero(e, m, n, i + 1, t, j);
        }
    }
}

/// Every vector of the left-null-space listing really combines the original
/// rows to zero: for each returned coefficient vector `v`, the weighted sum
/// of the rows of `m` under `v` vanishes in every column.  This is proved for
/// the parity field the sieve factors over.
pub proof fn lemma_lnull_span_combination(m: Seq<Seq<Parity>>, n: int, t: int, j: int)
    requires
        grid_wf(m, n),
        0 <= n,
        n + m.len() <= usize::MAX,
        0 <= t < lnull_from(echelon_spec(augment_spec(m), n + m.len()), n, 0).len(),
        0 <= j < n,
    ensures
        row_combination(
            lnull_from(echelon_spec(augment_spec(m), n + m.len()), n, 0)[t],
            m,
            j,
            m.len() as int,
        ) == <Parity as Scalar>::zero_spec(),
{
    let w = augment_spec(m);
    let cols = n + m.len();
    lemma_tracks_augment(m, n);
    assert(grid_wf(w, cols)) by {
        assert forall|t2: int| 0 <= t2 < w.len() implies (#[trigger] w[t2]).len() == cols by {
            assert(w[t2] == m[t2] + unit_row(m.len() as int, t2));
        }
        assert forall|t2: int, k2: int|
            0 <= t2 < w.len() && 0 <= k2 < cols implies (#[trigger] w[t2][k2]).reduced() by {
            assert(w[t2] == m[t2] + unit_row(m.len() as int, t2));
            if k2 < n {
                assert(w[t2][k2] == m[t2][k2]);
            } else {
                assert(w[t2][k2] == unit_row::<Parity>(m.len() as int, t2)[k2 - n]);
            }
        }
    }
    lemma_tracks_ech(w, m, n, cols, 0, 0);
    lemma_lnull_zero(echelon_spec(w, cols), m, n, 0, t, j);
}

/// The first `r` rows have pivots before column `j`, strictly increasing.
pub open spec fn pivots_fixed(w: Seq<Seq<Parity>>, j: int, r: int) -> bool {
    &&& forall|t: int|
        0 <= t < r ==> (#[trigger] row_pivot(w[t])) is Some && row_pivot(w[t]).unwrap() < j
    &&& forall|t1: int, t2: int|
        0 <= t1 < t2 < r ==> row_pivot(w[t1]).unwrap() < row_pivot(w[t2]).unwrap()
}

/// The rows from `r` on are zero in every column before `j`.
pub open spec fn lower_zero(w: Seq<Seq<Parity>>, j: int, r: int) -> bool {
    forall|t: int, k: int|
        r <= t < w.len() && 0 <= k < j ==> #[trigger] w[t][k] == <Parity as Scalar>::zero_spec()
}

/// Over the parity field, the elimination coefficients of two nonzero
/// entries are both one, so the pivot column is cleared and zero columns stay
/// zero.
proof fn lemma_parity_elim_coeffs(a: Parity, b: Parity)
    requires
        a.reduced(),
        b.reduced(),
        a != <Parity as Scalar>::zero_spec(),
        b != <Parity as Scalar>::zero_spec(),
    ensures
        b.lcm_spec(a).div_spec(a) == <Parity as Scalar>::one_spec(),
        b.lcm_spec(a).div_spec(b) == <Parity as Scalar>::one_spec(),
{
    assert(a.0 == 1 && b.0 == 1);
    let l = b.lcm_spec(a);
    crate::integers::lemma_gcd_zero(1nat);
    vstd::arithmetic::div_mod::lemma_small_mod(1nat, 2nat);
    assert(crate::integers::gcd_nat(1nat, 1nat) == 1) by {
        assert(crate::integers::gcd_nat(1nat, 1nat) == crate::integers::gcd_nat(1nat, 0nat));
    }
    assert(b.mul_spec(a).0 == 1);
    // the spec-level inverse of one modulo two is one
    assert(inv_mod(1, 2) == 1) by {
        assert(0 <= 1 < 2 && ((1int * 1int) % 2int) == 1int % 2int);
        let e = inv_mod(1, 2);
        assert(0 <= e < 2 && ((1int * e) % 2int) == 1int % 2int);
        if e == 0 {
            assert((1int * 0int) % 2int == 0);
        }
    }
    assert(l.0 == 1);
    assert(l.div_spec(a).0 == 1);
    assert(l.div_spec(b).0 == 1);
}

/// One parity elimination pass leaves zero columns zero, clears the pivot
/// column below the pivot, and touches no row above `i`.
proof fn lemma_elim_zeros_parity(w: Seq<Seq<Parity>>, cols: int, r: int, j: int, i: int)
    requires
        grid_wf(w, cols),
        0 <= r < w.len(),
        r < i,
        0 <= j < cols,
        w[r][j] != <Parity as Scalar>::zero_spec(),
        forall|k: int| 0 <= k < j ==> #[trigger] w[r][k] == <Parity as Scalar>::zero_spec(),
        forall|t: int, k: int|
            i <= t < w.len() && 0 <= k < j ==> #[trigger] w[t][k] == <Parity as Scalar>::zero_spec(),
    ensures
        elim_below(w, r, j, i).len() == w.len(),
        grid_wf(elim_below(w, r, j, i), cols),
        forall|t: int| 0 <= t < i ==> #[trigger] elim_below(w, r, j, i)[t] == w[t],
        forall|t: int, k: int|
            i <= t < w.len() && 0 <= k <= j ==> #[trigger] elim_below(w, r, j, i)[t][k]
                == <Parity as Scalar>::zero_spec(),
    decreases w.len() - i,
{
    if i < w.len() {
        let b = w[i][j];
        if b != <Parity as Scalar>::zero_spec() {
            let a = w[r][j];
            lemma_parity_elim_coeffs(b, a);
            let l = b.lcm_spec(a);
            let c = l.div_spec(a);
            let d = l.div_spec(b);
            let one = <Parity as Scalar>::one_spec();
            let row = elim_row(w[i], w[r], c, d);
            assert forall|k: int| 0 <= k < row.len() implies (#[trigger] row[k]).reduced() by {
                vstd::arithmetic::div_mod::lemma_mod_bound(
                    d.mul_spec(w[i][k]).rep() - c.mul_spec(w[r][k]).rep(),
                    2,
                );
            }
            // zero columns stay zero and the pivot column is cleared
            assert forall|k: int| 0 <= k <= j && k < cols implies #[trigger] row[k]
                == <Parity as Scalar>::zero_spec() by {
                vstd::arithmetic::div_mod::lemma_mod_bound(
                    d.rep() * w[i][k].rep(),
                    2,
                );
                vstd::arithmetic::div_mod::lemma_mod_bound(
                    c.rep() * w[r][k].rep(),
                    2,
                );
                vstd::arithmetic::div_mod::lemma_mod_bound(
                    d.mul_spec(w[i][k]).rep() - c.mul_spec(w[r][k]).rep(),
                    2,
                );
                if k < j {
                    assert(w[i][k].0 == 0 && w[r][k].0 == 0);
                    assert(d.rep() * 0 == 0) by (nonlinear_arith);
                    assert(c.rep() * 0 == 0) by (nonlinear_arith);
                    vstd::arithmetic::div_mod::lemma_small_mod(0nat, 2nat);
                } else {
                    assert(w[i][k].0 == 1 && w[r][k].0 == 1);
                    assert(d == one && c == one);
                    vstd::arithmetic::div_mod::lemma_small_mod(1nat, 2nat);
                    vstd::arithmetic::div_mod::lemma_small_mod(0nat, 2nat);
                }
            }
            let w2 = w.update(i, row);
            assert(grid_wf(w2, cols));
            lemma_elim_zeros_parity(w2, cols, r, j, i + 1);
        } else {
            lemma_elim_zeros_parity(w, cols, r, j, i + 1);
        }
    }
}

/// From column `j` on, the parity reduction produces an echelon grid, given
/// that the rows already fixed have increasing pivots before `j` and the rest
/// is zero to the left of `j`.
proof fn lemma_ech_echelon_parity(w: Seq<Seq<Parity>>, cols: int, j: int, r: int)
    requires
        grid_wf(w, cols),
        0 <= j,
        0 <= r <= w.len(),
        pivots_fixed(w, j, r),
        lower_zero(w, j, r),
    ensures
        is_echelon(ech_from(w, cols, j, r)),
    decreases cols - j,
{
    if j >= cols {
        let e = ech_from(w, cols, j, r);
        assert(e == w);
        assert forall|t: int| r <= t < w.len() implies row_pivot(w[t]) is None by {
            lemma_row_find(w[t], 0);
            if row_pivot(w[t]) is Some {
                let k = row_pivot(w[t]).unwrap();
                assert(w[t][k] != <Parity as Scalar>::zero_spec());
                assert(k < cols);
            }
        }
        assert forall|t: int| 0 <= t < w.len() - 1 implies #[trigger] echelon_pair(
            w[t],
            w[t + 1],
        ) by {}
    } else {
        lemma_col_find(w, j, r);
        match col_find(w, j, r) {
            Option::None => {
                assert(lower_zero(w, j + 1, r)) by {
                    assert forall|t: int, k: int|
                        r <= t < w.len() && 0 <= k < j + 1 implies #[trigger] w[t][k]
                        == <Parity as Scalar>::zero_spec() by {}
                }
                lemma_ech_echelon_parity(w, cols, j + 1, r);
            },
            Option::Some(u) => {
                let w1 = swap_rows(w, r, u);
                assert(grid_wf(w1, cols)) by {
                    assert forall|t: int| 0 <= t < w1.len() implies (#[trigger] w1[t]).len()
                        == cols by {
                        assert(w1[t] == w[r] || w1[t] == w[u] || w1[t] == w[t]);
                    }
                    assert forall|t: int, k2: int|
                        0 <= t < w1.len() && 0 <= k2 < cols implies (
                    #[trigger] w1[t][k2]).reduced() by {
                        assert(w1[t] == w[r] || w1[t] == w[u] || w1[t] == w[t]);
                    }
                }
                assert(w1[r] == w[u]);
                assert(w1[r][j] != <Parity as Scalar>::zero_spec());
                assert forall|t: int, k: int|
                    r <= t < w1.len() && 0 <= k < j implies #[trigger] w1[t][k]
                    == <Parity as Scalar>::zero_spec() by {
                    assert(w1[t] == w[r] || w1[t] == w[u] || w1[t] == w[t]);
                }
                lemma_elim_zeros_parity(w1, cols, r, j, r + 1);
                let w2 = elim_below(w1, r, j, r + 1);
                // the new pivot row has its pivot exactly at j
                assert(w2[r] == w1[r]);
                assert(row_pivot(w2[r]) == Option::Some(j)) by {
                    lemma_row_find(w2[r], 0);
                    match row_pivot(w2[r]) {
                        Option::Some(k) => {
                            if k < j {
                                assert(w2[r][k] == <Parity as Scalar>::zero_spec());
                            }
                            if k > j {
                                assert(w2[r][j] == <Parity as Scalar>::zero_spec());
                            }
                        },
                        Option::None => {
                            assert(w2[r][j] == <Parity as Scalar>::zero_spec());
                        },
                    }
                }
                assert(pivots_fixed(w2, j + 1, r + 1)) by {
                    assert forall|t: int|
                        0 <= t < r + 1 implies (#[trigger] row_pivot(w2[t])) is Some && row_pivot(
                        w2[t],
                    ).unwrap() < j + 1 by {
                        if t < r {
                            assert(w2[t] == w1[t] && w1[t] == w[t]);
                        }
                    }
                    assert forall|t1: int, t2: int|
                        0 <= t1 < t2 < r + 1 implies row_pivot(w2[t1]).unwrap() < row_pivot(
                        w2[t2],
                    ).unwrap() by {
                        if t2 < r {
                            assert(w2[t1] == w[t1] && w2[t2] == w[t2]);
                        } else {
                            assert(w2[t1] == w[t1]);
                            assert(row_pivot(w[t1]).unwrap() < j);
                        }
                    }
                }
                assert(lower_zero(w2, j + 1, r + 1)) by {
                    assert forall|t: int, k: int|
                        r + 1 <= t < w2.len() && 0 <= k < j + 1 implies #[trigger] w2[t][k]
                        == <Parity as Scalar>::zero_spec() by {}
                }
                lemma_ech_echelon_parity(w2, cols, j + 1, r + 1);
            },
        }
    }
}

/// The parity reduction really produces row-echelon form: pivot columns
/// strictly increase down the nonzero rows and the all-zero rows come last.
pub proof fn lemma_echelon_form_parity(m: Seq<Seq<Parity>>, cols: int)
    requires
        grid_wf(m, cols),
        0 <= cols,
    ensures
        is_echelon(echelon_spec(m, cols)),
{
    lemma_ech_echelon_parity(m, cols, 0, 0);
}

/// Copy a row of scalars.
fn row_dup<T: Scalar>(v: &Vec<T>) -> (r: Vec<T>)
    ensures
        r@ == v@,
{
    let mut r: Vec<T> = Vec::new();
    let n = v.len();
    for j in 0..n
        invariant
            n == v@.len(),
            r@.len() == j,
            forall|l: int| 0 <= l < j ==> #[trigger] r@[l] == v@[l],
    {
        let x = v[j];
        r.push(x);
    }
    proof {
        assert(r@ =~= v@);
    }
    r
}

/// A prefix of an in-range inner product is in range.
pub proof fn lemma_dot_ok_prefix<T: Scalar>(u: Seq<T>, v: Seq<T>, k: int, n: int)
    requires
        k <= n,
        dot_ok(u, v, n),
    ensures
        dot_ok(u, v, k),
    decreases n - k,
{
    if k < n {
        lemma_dot_ok_prefix(u, v, k, n - 1);
    }
}

/// The executable modular quotient agrees with the spec-level quotient formed
/// with `inv_mod`.
proof fn lemma_div_el_matches<const M: u32>(
    a: CongruenceClass<M>,
    o: CongruenceClass<M>,
    r: CongruenceClass<M>,
)
    requires
        M >= 1,
        a.reduced(),
        o.reduced(),
        r.reduced(),
        gcd_nat(o.0 as nat, M as nat) == 1,
        (r.rep() * o.rep()) % (M as int) == a.rep() % (M as int),
    ensures
        r == a.div_spec(o),
{
    let m = M as int;
    let e = inv_mod(o.rep(), m);
    // an inverse exists: Bezout for (o.0, M)
    crate::integers::lemma_gcd_bezout(o.0 as nat, M as nat);
    let (x, y) = choose|x: int, y: int|
        #[trigger] crate::integers::lin_comb(o.rep(), m, x, y) == gcd_nat(o.0 as nat, M as nat);
    assert(o.rep() * x + m * y == 1);
    let xr = x % m;
    vstd::arithmetic::div_mod::lemma_mod_bound(x, m);
    vstd::arithmetic::div_mod::lemma_mul_mod_noop_right(o.rep(), x, m);
    vstd::arithmetic::div_mod::lemma_mod_multiples_vanish(-y, 1int, m);
    assert(o.rep() * x == m * (-y) + 1) by (nonlinear_arith)
        requires
            o.rep() * x + m * y == 1,
    ;
    assert((o.rep() * x) % m == 1int % m);
    assert((o.rep() * xr) % m == 1int % m);
    assert((o.rep() * e) % m == 1int % m && 0 <= e < m) by {
        assert(0 <= xr < m && ((o.rep() * xr) % m) == 1int % m);
    }
    // r is also an inverse-multiple: r * o == a, so r == a * e (mod m)
    vstd::arithmetic::div_mod::lemma_small_mod(a.0 as nat, M as nat);
    vstd::arithmetic::div_mod::lemma_small_mod(r.0 as nat, M as nat);
    // (a * e) % m == ((r * o) % m * e) % m == (r * (o * e)) % m == r % m == r
    vstd::arithmetic::div_mod::lemma_mul_mod_noop_left(r.rep() * o.rep(), e, m);
    assert(((r.rep() * o.rep()) * e) % m == ((a.rep() % m) * e) % m);
    assert((a.rep() % m) * e == a.rep() * e);
    assert((r.rep() * o.rep()) * e == r.rep() * (o.rep() * e)) by (nonlinear_arith);
    vstd::arithmetic::div_mod::lemma_mul_mod_noop_right(r.rep(), o.rep() * e, m);
    assert((r.rep() * (o.rep() * e)) % m == (r.rep() * ((o.rep() * e) % m)) % m);
    vstd::arithmetic::div_mod::lemma_mul_mod_noop_right(r.rep(), 1int, m);
    assert((r.rep() * (1int % m)) % m == (r.rep() * 1int) % m);
    assert((a.rep() * e) % m == r.rep());
}

} // verus!
