//! The preprocessed table of the lookup argument: what is computed once from
//! a table and a reference string, and shared by all proofs about the table.
use vstd::prelude::*;
use crate::algebra::{commit_index, dft, domain_element, idft, is_pow2};
use crate::domain::{domain_size_ok, is_power_of_two, Domain};
use crate::errors::GeneralError;
use crate::feist_khovratovich_alg::{h_coefficients, toeplitz_column, ToeplitzMatrix};
use crate::field::{finv, fmul, fsub, modulus, scalars_view, Scalar};
use crate::group::{g1s_view, G1, G2};
use crate::kzg::Kzg;
use crate::poly::{trim, DensePolynomial};
use crate::protocol::CqView;
use crate::pre_compute::{
    compute_quotient_lagrange_basic_commitments,
    fast_lagrange_basis_commitments_computation,
    lagrange_commitments,
    quotient_lagrange_commitments,
};
use crate::scalar_map::ScalarMap;

verus! {

/// The largest table that the transforms of the preprocessing can take.
pub const MAX_TABLE_SIZE: usize = 0x4000_0000;

/// The map from each value of a table to the last position at which it
/// stands.
pub open spec fn table_map(t: Seq<nat>) -> Map<nat, usize>
    decreases t.len(),
{
    if t.len() == 0 {
        Map::empty()
    } else {
        table_map(t.drop_last()).insert(t.last(), (t.len() - 1) as usize)
    }
}

/// The values of a table in the order in which they first occur.
pub open spec fn first_occurrences(t: Seq<nat>) -> Seq<nat>
    decreases t.len(),
{
    if t.len() == 0 {
        Seq::empty()
    } else if t.drop_last().contains(t.last()) {
        first_occurrences(t.drop_last())
    } else {
        first_occurrences(t.drop_last()).push(t.last())
    }
}

/// The commitments to the quotients of the table polynomial, with the
/// coefficients `t_coeffs`, by the linear factors of the domain of size `n`.
pub open spec fn quotient_commitments(srs: Seq<nat>, t_coeffs: Seq<nat>, n: nat) -> Seq<nat> {
    let h = h_coefficients(toeplitz_column(t_coeffs, n), srs);
    Seq::new(
        n,
        |i: int|
            fmul(dft(h.take(n as int), n)[i], fmul(domain_element(n, i as nat), finv(n % modulus()))),
    )
}

/// The commitment to the quotient of the polynomial with the coefficients
/// `t_coeffs` by `X - w`, for the domain element `w` of position `i`, taken
/// `w / n` times.
pub open spec fn scaled_opening(srs: Seq<nat>, t_coeffs: Seq<nat>, i: int) -> nat {
    let n = t_coeffs.len();
    let w = domain_element(n, i as nat);
    fmul(
        commit_index(srs, crate::toeplitz_laws::opening_quotient(t_coeffs, w)),
        fmul(w, finv(n % modulus())),
    )
}

/// The table map knows exactly the values of the table, and maps each to a
/// position at which it stands.
pub proof fn lemma_table_map(t: Seq<nat>, v: nat)
    requires
        t.len() <= usize::MAX,
    ensures
        table_map(t).contains_key(v) <==> t.contains(v),
        table_map(t).contains_key(v) ==> table_map(t)[v] < t.len() && t[table_map(t)[v] as int]
            == v,
    decreases t.len(),
{
    if t.len() > 0 {
        lemma_table_map(t.drop_last(), v);
        if t.last() == v {
            assert(t[t.len() - 1] == v);
        } else {
            if t.contains(v) {
                let i = choose|i: int| 0 <= i < t.len() && t[i] == v;
                assert(t.drop_last()[i] == v);
            }
            if t.drop_last().contains(v) {
                let i = choose|i: int| 0 <= i < t.drop_last().len() && t.drop_last()[i] == v;
                assert(t[i] == v);
            }
        }
    }
}

/// A preprocessed table.
pub struct Cq {
    pub kzg: Kzg,
    pub big_n: usize,
    pub z_v_2: G2,
    pub t_hash_map: ScalarMap,
    pub t_x_2: G2,
    pub cm1_qi: Vec<G1>,
    pub cm1_li: Vec<G1>,
    pub cm1_l_i_quotient: Vec<G1>,
}

impl View for Cq {
    type V = CqView;

    open spec fn view(&self) -> CqView {
        CqView {
            g1: self.kzg.g1_view(),
            g2: self.kzg.g2_view(),
            big_n: self.big_n as nat,
            z_v_2: self.z_v_2@,
            t_x_2: self.t_x_2@,
            qi: g1s_view(self.cm1_qi@),
            li: g1s_view(self.cm1_li@),
            lqi: g1s_view(self.cm1_l_i_quotient@),
            table: self.t_hash_map@,
        }
    }
}

/// The values in order of first occurrence are exactly the values.
pub proof fn lemma_first_occurrences(t: Seq<nat>, v: nat)
    ensures
        first_occurrences(t).contains(v) <==> t.contains(v),
    decreases t.len(),
{
    if t.len() > 0 {
        lemma_first_occurrences(t.drop_last(), v);
        lemma_first_occurrences(t.drop_last(), t.last());
        let rest = first_occurrences(t.drop_last());
        if t.contains(v) {
            let i = choose|i: int| 0 <= i < t.len() && t[i] == v;
            if i < t.len() - 1 {
                assert(t.drop_last()[i] == v);
            }
        }
        if t.drop_last().contains(v) {
            let i = choose|i: int| 0 <= i < t.drop_last().len() && t.drop_last()[i] == v;
            assert(t[i] == v);
        }
        if rest.contains(v) {
            let i = choose|i: int| 0 <= i < rest.len() && rest[i] == v;
            if !t.drop_last().contains(t.last()) {
                assert(rest.push(t.last())[i] == v);
            }
        }
        if !t.drop_last().contains(t.last()) {
            let full = rest.push(t.last());
            assert(full[rest.len() as int] == t.last());
            if full.contains(v) {
                let i = choose|i: int| 0 <= i < full.len() && full[i] == v;
                if i < rest.len() {
                    assert(rest[i] == v);
                }
            }
        }
        assert(t[t.len() - 1] == t.last());
    }
}

impl Cq {
    /// The sizes fit together.
    pub open spec fn wf(self) -> bool {
        &&& domain_size_ok(self.big_n as nat)
        &&& self.big_n <= MAX_TABLE_SIZE
        &&& self.kzg.g1_srs.len() > self.big_n
        &&& self.kzg.g2_srs.len() > self.big_n
        &&& self.cm1_qi.len() == self.big_n
        &&& self.cm1_li.len() == self.big_n
        &&& self.cm1_l_i_quotient.len() == self.big_n
        &&& self.t_hash_map.wf()
        &&& forall|k: nat| #[trigger]
            self.t_hash_map@.contains_key(k) ==> self.t_hash_map@[k] < self.big_n
    }

    /// Every part is what the table `t` and the reference string give.
    pub open spec fn is_preprocessing_of(self, t: Seq<nat>) -> bool {
        let n = t.len();
        let g1 = self.kzg.g1_view();
        let g2 = self.kzg.g2_view();
        &&& self.big_n == n
        &&& self.z_v_2@ == fsub(g2[n as int], g2[0])
        &&& self.t_hash_map@ == table_map(t)
        &&& self.t_hash_map.spec_keys() == first_occurrences(t)
        &&& self.t_x_2@ == commit_index(g2, trim(idft(t, n)))
        &&& g1s_view(self.cm1_qi@) == quotient_commitments(g1, idft(t, n), n)
        &&& g1s_view(self.cm1_li@) == lagrange_commitments(g1, n)
        &&& g1s_view(self.cm1_l_i_quotient@) == quotient_lagrange_commitments(
            lagrange_commitments(g1, n),
            g1,
        )
    }

    /// Every quotient commitment is the opening of the table polynomial at
    /// its domain element, scaled: it commits to
    /// `(T(X) - T(w)) / (X - w)`, taken `w / n` times.
    pub open spec fn opens_table(self, t: Seq<nat>) -> bool {
        forall|i: int|
            0 <= i < t.len() ==> (#[trigger] self.cm1_qi[i])@ == scaled_opening(
                self.kzg.g1_view(),
                idft(t, t.len()),
                i,
            )
    }

    /// The preprocessing is that of the table `t` under a reference string
    /// of the powers of one secret, and the table polynomial takes the
    /// values of the table on the domain.
    pub open spec fn sound_for(self, t: Seq<nat>) -> bool {
        &&& self.wf()
        &&& self.is_preprocessing_of(t)
        &&& self.opens_table(t)
        &&& self.kzg.consistent()
        &&& dft(idft(t, t.len()), t.len()) == t
    }

    /// The preprocessing is a function of the table and of the reference
    /// string: two preprocessings of one table under one string agree in
    /// every part.
    pub proof fn lemma_preprocessing_determined(self, other: Cq, t: Seq<nat>)
        requires
            self.kzg.g1_view() == other.kzg.g1_view(),
            self.kzg.g2_view() == other.kzg.g2_view(),
            self.is_preprocessing_of(t),
            other.is_preprocessing_of(t),
        ensures
            self@ == other@,
            self.big_n == other.big_n,
            self.t_hash_map.spec_keys() == other.t_hash_map.spec_keys(),
    {
    }

    /// The preprocessing of a table under a development reference string
    /// with a secret drawn at random.
    pub fn new(t_i: &[Scalar]) -> (r: Result<Cq, GeneralError>)
        requires
            t_i.len() <= MAX_TABLE_SIZE,
        ensures
            r is Ok <==> is_pow2(t_i.len() as nat),
            r is Err ==> r == Err::<Cq, GeneralError>(GeneralError::TableSizeNotPowerOf2),
            r is Ok ==> r->Ok_0.sound_for(scalars_view(t_i@)),
    {
        let big_n = t_i.len();
        if !is_power_of_two(big_n) {
            return Err(GeneralError::TableSizeNotPowerOf2);
        }
        let kzg = Kzg::new(big_n + 1);
        Cq::with_srs(kzg, t_i)
    }

    /// The preprocessing of a table under a given reference string.
    pub fn with_srs(kzg: Kzg, t_i: &[Scalar]) -> (r: Result<Cq, GeneralError>)
        requires
            t_i.len() <= MAX_TABLE_SIZE,
            kzg.g1_srs.len() > t_i.len(),
            kzg.g2_srs.len() > t_i.len(),
        ensures
            r is Ok <==> is_pow2(t_i.len() as nat),
            r is Err ==> r == Err::<Cq, GeneralError>(GeneralError::TableSizeNotPowerOf2),
            r is Ok ==> r->Ok_0.wf() && r->Ok_0.is_preprocessing_of(scalars_view(t_i@))
                && r->Ok_0.opens_table(scalars_view(t_i@)) && r->Ok_0.kzg == kzg,
            r is Ok && kzg.consistent() ==> r->Ok_0.sound_for(scalars_view(t_i@)),
    {
        let big_n = t_i.len();
        let domain = match Domain::new(big_n) {
            Some(d) => d,
            None => {
                return Err(GeneralError::TableSizeNotPowerOf2);
            },
        };
        let ghost t = scalars_view(t_i@);
        let z_v_2 = kzg.g2_srs[big_n].sub(&kzg.g2_srs[0]);
        let t_hash_map = Cq::build_table_map(t_i);
        let mut evals: Vec<Scalar> = Vec::new();
        let mut i: usize = 0;
        while i < big_n
            invariant
                i <= big_n,
                big_n == t_i.len(),
                evals@ == t_i@.take(i as int),
            decreases big_n - i,
        {
            evals.push(t_i[i]);
            proof {
                assert(t_i@.take(i as int).push(t_i@[i as int]) =~= t_i@.take(i + 1));
            }
            i += 1;
        }
        proof {
            assert(t_i@.take(big_n as int) =~= t_i@);
        }
        let t_x_coeffs = domain.ifft(&evals);
        let t_x = DensePolynomial::from_coefficients_slice(t_x_coeffs.as_slice());
        proof {
            crate::poly::lemma_trim_prefix(scalars_view(t_x_coeffs@));
        }
        proof {
            crate::poly::lemma_trim_prefix(t_x@);
        }
        let t_x_2 = kzg.commit_g2(&t_x);
        let cm1_qi = Cq::compute_cm1_qi(&domain, &t_x_coeffs, kzg.g1_srs.as_slice());
        let cm1_li = fast_lagrange_basis_commitments_computation(kzg.g1_srs.as_slice(), big_n);
        let cm1_l_i_quotient = compute_quotient_lagrange_basic_commitments(
            cm1_li.as_slice(),
            kzg.g1_srs.as_slice(),
        );
        Ok(Cq { kzg, big_n, z_v_2, t_hash_map, t_x_2, cm1_qi, cm1_li, cm1_l_i_quotient })
    }

    /// The map from each value of the table to its last position.
    fn build_table_map(t_i: &[Scalar]) -> (r: ScalarMap)
        ensures
            r.wf(),
            r@ == table_map(scalars_view(t_i@)),
            r.spec_keys() == first_occurrences(scalars_view(t_i@)),
            forall|k: nat| #[trigger] r@.contains_key(k) ==> r@[k] < t_i.len(),
    {
        let ghost t = scalars_view(t_i@);
        let mut map = ScalarMap::new();
        let mut i: usize = 0;
        while i < t_i.len()
            invariant
                i <= t_i.len(),
                t == scalars_view(t_i@),
                map.wf(),
                map@ == table_map(t.take(i as int)),
                map.spec_keys() == first_occurrences(t.take(i as int)),
            decreases t_i.len() - i,
        {
            proof {
                assert(t.take(i + 1).drop_last() =~= t.take(i as int));
                lemma_table_map(t.take(i as int), t[i as int]);
                map.lemma_wf();
            }
            map.insert(t_i[i], i);
            i += 1;
        }
        proof {
            assert(t.take(t_i.len() as int) =~= t);
            assert forall|k: nat| #[trigger] map@.contains_key(k) implies map@[k] < t_i.len() by {
                lemma_table_map(t, k);
            }
        }
        map
    }

    /// The commitments to the quotients of the table polynomial by the
    /// linear factors of the domain.
    fn compute_cm1_qi(domain: &Domain, t_x_coeffs: &Vec<Scalar>, srs_g1: &[G1]) -> (r: Vec<G1>)
        requires
            t_x_coeffs.len() == domain.spec_size(),
            domain.spec_size() <= MAX_TABLE_SIZE,
            srs_g1.len() >= domain.spec_size(),
        ensures
            r.len() == domain.spec_size(),
            g1s_view(r@) == quotient_commitments(
                g1s_view(srs_g1@),
                scalars_view(t_x_coeffs@),
                domain.spec_size(),
            ),
            forall|i: int|
                0 <= i < r.len() ==> (#[trigger] r[i])@ == scaled_opening(
                    g1s_view(srs_g1@),
                    scalars_view(t_x_coeffs@),
                    i,
                ),
    {
        let n = domain.size();
        let big_n_inv = domain.size_inv();
        let mut padded: Vec<Scalar> = Vec::new();
        let mut i: usize = 0;
        while i < n
            invariant
                i <= n,
                n == t_x_coeffs.len(),
                padded@ == t_x_coeffs@.take(i as int),
            decreases n - i,
        {
            padded.push(t_x_coeffs[i]);
            proof {
                assert(t_x_coeffs@.take(i as int).push(t_x_coeffs@[i as int])
                    =~= t_x_coeffs@.take(i + 1));
            }
            i += 1;
        }
        padded.push(Scalar::zero());
        let column_poly = DensePolynomial { coeffs: padded };
        let toeplitz = ToeplitzMatrix::new(&column_poly);
        proof {
            assert(t_x_coeffs@.take(n as int) =~= t_x_coeffs@);
            crate::feist_khovratovich_alg::lemma_next_pow2_unique(n as nat, n as nat);
            assert(column_poly@.len() == n + 1);
            assert(toeplitz.column() =~= toeplitz_column(scalars_view(t_x_coeffs@), n as nat));
        }
        let hs = toeplitz.compute_h_coefficients(srs_g1);
        let mut first_half: Vec<G1> = Vec::new();
        let mut i: usize = 0;
        while i < n
            invariant
                i <= n,
                hs.len() == 2 * n,
                first_half@ == hs@.take(i as int),
            decreases n - i,
        {
            first_half.push(hs[i]);
            proof {
                assert(hs@.take(i as int).push(hs@[i as int]) =~= hs@.take(i + 1));
            }
            i += 1;
        }
        proof {
            assert(g1s_view(first_half@) =~= g1s_view(hs@).take(n as int));
            assert(g1s_view(first_half@) =~= crate::toeplitz_laws::h_vector(
                scalars_view(t_x_coeffs@),
                g1s_view(srs_g1@),
            )) by {
                assert forall|k: int| 0 <= k < n implies g1s_view(first_half@)[k]
                    == crate::toeplitz_laws::h_vector(
                    scalars_view(t_x_coeffs@),
                    g1s_view(srs_g1@),
                )[k] by {
                    assert(first_half@[k] == hs[k]);
                }
            }
        }
        let ks = domain.fft_g1(&first_half);
        let ghost expected = quotient_commitments(
            g1s_view(srs_g1@),
            scalars_view(t_x_coeffs@),
            n as nat,
        );
        let mut res: Vec<G1> = Vec::new();
        let mut i: usize = 0;
        while i < n
            invariant
                i <= n,
                n == domain.spec_size(),
                ks.len() == n,
                big_n_inv@ == finv((n as nat) % modulus()),
                expected == quotient_commitments(
                    g1s_view(srs_g1@),
                    scalars_view(t_x_coeffs@),
                    n as nat,
                ),
                g1s_view(ks@) == dft(
                    h_coefficients(
                        toeplitz_column(scalars_view(t_x_coeffs@), n as nat),
                        g1s_view(srs_g1@),
                    ).take(n as int),
                    n as nat,
                ),
                g1s_view(ks@) == dft(
                    crate::toeplitz_laws::h_vector(scalars_view(t_x_coeffs@), g1s_view(srs_g1@)),
                    n as nat,
                ),
                t_x_coeffs.len() == n,
                srs_g1.len() >= n,
                res.len() == i,
                forall|j: int| 0 <= j < i ==> res[j]@ == expected[j],
                forall|j: int|
                    0 <= j < i ==> (#[trigger] res[j])@ == scaled_opening(
                        g1s_view(srs_g1@),
                        scalars_view(t_x_coeffs@),
                        j,
                    ),
            decreases n - i,
        {
            let g_i = domain.element(i);
            proof {
                assert(g1s_view(ks@)[i as int] == ks[i as int]@);
                crate::toeplitz_laws::lemma_h_vector_opens(
                    scalars_view(t_x_coeffs@),
                    g1s_view(srs_g1@),
                    domain_element(n as nat, i as nat),
                );
            }
            res.push(ks[i].mul(&g_i.mul(&big_n_inv)));
            i += 1;
        }
        proof {
            assert(g1s_view(res@) =~= expected);
        }
        res
    }
}

} // verus!
