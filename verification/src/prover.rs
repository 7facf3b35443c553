//! The prover of the lookup argument.
use vstd::prelude::*;
use crate::algebra::{commit_index, idft, is_pow2, poly_eval};
use crate::cq::{first_occurrences, lemma_first_occurrences, lemma_table_map, table_map, Cq};
use crate::domain::{is_power_of_two, Domain};
use crate::errors::GeneralError;
use crate::fiat_shamir::Script;
use crate::field::{fadd, finv, fmul, fpow, fsub, modulus, scalars_view, Scalar};
use crate::group::{g1s_view, G1};
use crate::poly::{trim, DensePolynomial};
use crate::protocol::{
    a_weights,
    assemble,
    b_values,
    challenge_hits_witness,
    count_map,
    counts_of,
    digest_after,
    drop_constant,
    multiplicities,
    positions_of,
    prove_spec,
    round_one,
    round_three,
    round_two,
    shift_up,
    weighted_sum,
    witness_leaves_table,
    ProofView,
    RoundOne,
    RoundThree,
    RoundTwo,
};
use crate::scalar_map::ScalarMap;

verus! {

/// A proof that every value of a witness stands in a table.
#[derive(Clone, Copy, Debug)]
pub struct Proof {
    pub small_n: usize,
    pub cm1_f: G1,
    pub cm1_m: G1,
    pub cm1_a: G1,
    pub cm1_q_a: G1,
    pub cm1_b_0: G1,
    pub cm1_q_b: G1,
    pub cm1_p: G1,
    pub b_0_gamma: Scalar,
    pub f_gamma: Scalar,
    pub a_0: Scalar,
    pub cm1_pi_eta: G1,
    pub cm1_a_0_x: G1,
}

impl View for Proof {
    type V = ProofView;

    open spec fn view(&self) -> ProofView {
        ProofView {
            small_n: self.small_n as nat,
            cm1_f: self.cm1_f@,
            cm1_m: self.cm1_m@,
            cm1_a: self.cm1_a@,
            cm1_q_a: self.cm1_q_a@,
            cm1_b_0: self.cm1_b_0@,
            cm1_q_b: self.cm1_q_b@,
            cm1_p: self.cm1_p@,
            b_0_gamma: self.b_0_gamma@,
            f_gamma: self.f_gamma@,
            a_0: self.a_0@,
            cm1_pi_eta: self.cm1_pi_eta@,
            cm1_a_0_x: self.cm1_a_0_x@,
        }
    }
}

/// A prover for one witness.
pub struct Prover {
    pub f_i: Vec<Scalar>,
    pub f_i_map: ScalarMap,
    pub script: Script,
}

/// The count map knows exactly the values of the witness, and no count
/// exceeds the length of the witness.
pub proof fn lemma_count_map(f: Seq<nat>, v: nat)
    requires
        f.len() <= usize::MAX,
    ensures
        count_map(f).contains_key(v) <==> f.contains(v),
        count_map(f).contains_key(v) ==> 1 <= count_map(f)[v] <= f.len(),
    decreases f.len(),
{
    if f.len() > 0 {
        lemma_count_map(f.drop_last(), v);
        lemma_count_map(f.drop_last(), f.last());
        if f.contains(v) {
            let i = choose|i: int| 0 <= i < f.len() && f[i] == v;
            if i < f.len() - 1 {
                assert(f.drop_last()[i] == v);
            }
        }
        if f.drop_last().contains(v) {
            let i = choose|i: int| 0 <= i < f.drop_last().len() && f.drop_last()[i] == v;
            assert(f[i] == v);
        }
        assert(f[f.len() - 1] == f.last());
    }
}

/// What the second round hands to the third.
pub struct RoundTwoResponse {
    pub b_x: DensePolynomial,
    pub b_0_x: DensePolynomial,
    pub q_b_x: DensePolynomial,
    pub a_sparse: Vec<Scalar>,
    pub cm1_a: G1,
    pub cm1_q_a: G1,
    pub cm1_b_0: G1,
    pub cm1_q_b: G1,
    pub cm1_p: G1,
}

/// What the third round adds to the proof.
pub struct RoundThreeResponse {
    pub b_0_gamma: Scalar,
    pub f_gamma: Scalar,
    pub a_0: Scalar,
    pub cm1_pi_eta: G1,
    pub cm1_a_0_x: G1,
}

impl RoundTwoResponse {
    /// The response holds what the second round of the protocol gives.
    pub open spec fn matches(self, two: RoundTwo) -> bool {
        &&& self.b_x@ == two.b_x
        &&& self.b_0_x@ == two.b_0_x
        &&& self.q_b_x@ == two.q_b_x
        &&& scalars_view(self.a_sparse@) == two.a
        &&& self.cm1_a@ == two.cm1_a
        &&& self.cm1_q_a@ == two.cm1_q_a
        &&& self.cm1_b_0@ == two.cm1_b_0
        &&& self.cm1_q_b@ == two.cm1_q_b
        &&& self.cm1_p@ == two.cm1_p
    }
}

impl RoundThreeResponse {
    /// The response holds what the third round of the protocol gives.
    pub open spec fn matches(self, three: RoundThree) -> bool {
        &&& self.b_0_gamma@ == three.b_0_gamma
        &&& self.f_gamma@ == three.f_gamma
        &&& self.a_0@ == three.a_0
        &&& self.cm1_pi_eta@ == three.cm1_pi_eta
        &&& self.cm1_a_0_x@ == three.cm1_a_0_x
    }
}

/// The polynomial with the coefficients `p` takes the values `values` on
/// the domain of their number.
pub open spec fn takes_values(p: Seq<nat>, values: Seq<nat>) -> bool {
    forall|j: int|
        0 <= j < values.len() ==> poly_eval(
            p,
            #[trigger] crate::algebra::domain_element(values.len(), j as nat),
        ) == values[j]
}

/// What the division that gives the quotient of B has shown: the product
/// and the division are what their names say at every point. From it
/// follows that the remainder is zero, and that the quotient times the
/// vanishing polynomial is `B (F + beta) - 1`.
proof fn lemma_quotient_of_b(
    n: nat,
    f: Seq<nat>,
    beta: nat,
    c_b: Seq<nat>,
    f_x: Seq<nat>,
    product: Seq<nat>,
    q: Seq<nat>,
    rem: Seq<nat>,
)
    requires
        n >= 1,
        crate::algebra::domain_element(n, n) == 1,
        f.len() == n,
        beta < modulus(),
        c_b.len() == n,
        crate::algebra::all_reduced(c_b),
        crate::algebra::all_reduced(rem),
        crate::completeness::inverses_hold(f, beta),
        crate::algebra::dft(c_b, n) == b_values(f, beta),
        forall|c: Seq<nat>|
            c.len() == n && crate::algebra::all_reduced(c) && #[trigger] crate::algebra::dft(c, n)
                == b_values(f, beta) ==> c_b == c,
        takes_values(f_x, f),
        forall|x: nat| #[trigger]
            poly_eval(product, x) == fmul(
                poly_eval(trim(c_b), x),
                poly_eval(crate::poly::poly_add(f_x, seq![beta]), x),
            ),
        forall|x: nat| #[trigger]
            poly_eval(crate::poly::poly_sub(product, seq![1nat]), x) == fadd(
                fmul(poly_eval(q, x), fsub(fpow(x, n), 1)),
                poly_eval(rem, x),
            ),
        rem.len() <= n,
        rem.len() > 0 ==> rem.last() != 0,
    ensures
        rem.len() == 0,
        forall|x: nat|
            fsub(fmul(#[trigger] poly_eval(trim(c_b), x), fadd(poly_eval(f_x, x), beta)), 1) == fmul(
                poly_eval(q, x),
                crate::protocol::vanishing_at(x, n),
            ),
{
    let b = b_values(f, beta);
    assert forall|x: nat|
        fsub(fmul(#[trigger] poly_eval(trim(c_b), x), fadd(poly_eval(f_x, x), beta)), 1) == fadd(
            fmul(poly_eval(q, x), fsub(fpow(x, n), 1)),
            poly_eval(rem, x),
        ) by {
        crate::commit_laws::lemma_eval_add(f_x, seq![beta], x);
        crate::commit_laws::lemma_eval_constant(beta, x);
        crate::field_laws::lemma_neutral(beta);
        crate::commit_laws::lemma_eval_sub(product, seq![1nat], x);
        crate::commit_laws::lemma_eval_constant(1, x);
        crate::field_laws::lemma_neutral(1);
        assert(poly_eval(product, x) == fmul(
            poly_eval(trim(c_b), x),
            poly_eval(crate::poly::poly_add(f_x, seq![beta]), x),
        ));
    }
    assert forall|j: int| 0 <= j < n implies fmul(#[trigger] fadd(f[j], beta), b[j]) == 1 by {}
    crate::completeness::lemma_remainder_empty(n, f, beta, b, c_b, f_x, q, rem);
    assert forall|x: nat|
        fsub(fmul(#[trigger] poly_eval(trim(c_b), x), fadd(poly_eval(f_x, x), beta)), 1) == fmul(
            poly_eval(q, x),
            crate::protocol::vanishing_at(x, n),
        ) by {
        crate::field_laws::lemma_neutral(fmul(poly_eval(q, x), fsub(fpow(x, n), 1)));
    }
}

/// Every position of the sparse multiplicities lies below `bound`.
pub open spec fn positions_below(m: Seq<(usize, usize)>, bound: nat) -> bool {
    forall|k: int| 0 <= k < m.len() ==> (#[trigger] m[k]).0 < bound
}

/// The sum of `points[m[k].0]` taken `weights[k]` times.
pub fn sparse_msm(points: &Vec<G1>, m: &Vec<(usize, usize)>, weights: &Vec<Scalar>) -> (r: G1)
    requires
        weights.len() == m.len(),
        positions_below(m@, points.len() as nat),
    ensures
        r@ == weighted_sum(g1s_view(points@), positions_of(m@), scalars_view(weights@)),
{
    let ghost pts = g1s_view(points@);
    let ghost pos = positions_of(m@);
    let ghost w = scalars_view(weights@);
    let mut acc = G1::identity();
    let mut k: usize = 0;
    while k < m.len()
        invariant
            k <= m.len(),
            weights.len() == m.len(),
            positions_below(m@, points.len() as nat),
            pts == g1s_view(points@),
            pos == positions_of(m@),
            w == scalars_view(weights@),
            acc@ == weighted_sum(pts, pos.take(k as int), w.take(k as int)),
        decreases m.len() - k,
    {
        proof {
            assert(pos.take(k + 1).drop_last() =~= pos.take(k as int));
            assert(w.take(k + 1).drop_last() =~= w.take(k as int));
        }
        let index = m[k].0;
        acc = acc.add(&points[index].mul(&weights[k]));
        k += 1;
    }
    proof {
        assert(pos.take(m.len() as int) =~= pos);
        assert(w.take(m.len() as int) =~= w);
    }
    acc
}

impl Prover {
    /// The witness, on residues.
    pub open spec fn witness(self) -> Seq<nat> {
        scalars_view(self.f_i@)
    }

    /// The length of the witness is a power of two, and the map counts its
    /// values.
    pub open spec fn wf(self) -> bool {
        &&& is_pow2(self.f_i.len() as nat)
        &&& self.f_i_map.wf()
        &&& self.f_i_map@ == count_map(self.witness())
        &&& self.f_i_map.spec_keys() == first_occurrences(self.witness())
    }

    /// A prover for the witness `f_i`, with an empty transcript.
    pub fn new(f_i: Vec<Scalar>) -> (r: Result<Prover, GeneralError>)
        ensures
            r is Ok <==> is_pow2(f_i.len() as nat),
            r is Err ==> r == Err::<Prover, GeneralError>(GeneralError::WitnessSizeNotPowerOf2),
            r is Ok ==> r->Ok_0.wf() && r->Ok_0.f_i == f_i && r->Ok_0.script.digest() is None,
    {
        if !is_power_of_two(f_i.len()) {
            return Err(GeneralError::WitnessSizeNotPowerOf2);
        }
        let ghost f = scalars_view(f_i@);
        let mut hash_map = ScalarMap::new();
        let mut i: usize = 0;
        while i < f_i.len()
            invariant
                i <= f_i.len(),
                f == scalars_view(f_i@),
                hash_map.wf(),
                hash_map@ == count_map(f.take(i as int)),
                hash_map.spec_keys() == first_occurrences(f.take(i as int)),
            decreases f_i.len() - i,
        {
            proof {
                assert(f.take(i + 1).drop_last() =~= f.take(i as int));
                lemma_count_map(f.take(i as int), f[i as int]);
            }
            match hash_map.get(&f_i[i]) {
                None => {
                    hash_map.insert(f_i[i], 1);
                },
                Some(value) => {
                    hash_map.insert(f_i[i], value + 1);
                },
            }
            i += 1;
        }
        proof {
            assert(f.take(f_i.len() as int) =~= f);
        }
        Ok(Prover { f_i, f_i_map: hash_map, script: Script::new() })
    }

    /// The witness polynomial and its commitment.
    fn compute_cm1_fx(&self, cq: &Cq, domain: &Domain) -> (r: (DensePolynomial, G1))
        requires
            self.wf(),
            cq.wf(),
            self.f_i.len() <= cq.big_n,
            domain.spec_size() == self.f_i.len(),
        ensures
            r.0@ == trim(idft(self.witness(), self.f_i.len() as nat)),
            r.0@.len() <= self.f_i.len(),
            r.1@ == commit_index(cq@.g1, r.0@),
            takes_values(r.0@, self.witness()),
    {
        let n = self.f_i.len();
        let coeffs = domain.ifft(&self.f_i);
        let ghost full = scalars_view(coeffs@);
        let f_x = DensePolynomial::from_coefficients_vec(coeffs);
        proof {
            crate::poly::lemma_trim_prefix(idft(self.witness(), n as nat));
            assert forall|j: int| 0 <= j < n implies poly_eval(
                f_x@,
                #[trigger] crate::algebra::domain_element(n as nat, j as nat),
            ) == self.witness()[j] by {
                crate::poly::lemma_eval_trim(
                    full,
                    crate::algebra::domain_element(n as nat, j as nat),
                );
                assert(crate::algebra::dft(full, n as nat)[j] == self.witness()[j]);
            }
        }
        proof {
            crate::poly::lemma_trim_prefix(f_x@);
        }
        let cm1_fx = cq.kzg.commit_g1(&f_x);
        (f_x, cm1_fx)
    }

    /// The commitment to the multiplicities: the sum of the Lagrange
    /// commitments at the positions of `m_i_vec`, each taken as often as its
    /// value occurs.
    fn compute_cm1_mx(&self, cq: &Cq, m_i_vec: &Vec<(usize, usize)>) -> (r: G1)
        requires
            cq.wf(),
            positions_below(m_i_vec@, cq.big_n as nat),
        ensures
            r@ == weighted_sum(cq@.li, positions_of(m_i_vec@), counts_of(m_i_vec@)),
    {
        let mut weights: Vec<Scalar> = Vec::new();
        let mut k: usize = 0;
        while k < m_i_vec.len()
            invariant
                k <= m_i_vec.len(),
                weights.len() == k,
                forall|j: int| 0 <= j < k ==> weights[j]@ == m_i_vec[j].1 as nat,
            decreases m_i_vec.len() - k,
        {
            weights.push(Scalar::from_u64(m_i_vec[k].1 as u64));
            k += 1;
        }
        proof {
            assert(scalars_view(weights@) =~= counts_of(m_i_vec@));
        }
        sparse_msm(&cq.cm1_li, m_i_vec, &weights)
    }

    /// The sparse multiplicities of the witness: for each of its values, the
    /// table position and the count. Fails if a value is not in the table.
    fn multiplicity_list(&self, cq: &Cq, Ghost(t): Ghost<Seq<nat>>) -> (r: Result<
        Vec<(usize, usize)>,
        GeneralError,
    >)
        requires
            self.wf(),
            cq.wf(),
            t.len() == cq.big_n,
            cq.t_hash_map@ == table_map(t),
        ensures
            r is Err <==> witness_leaves_table(self.witness(), t),
            r is Err ==> r == Err::<Vec<(usize, usize)>, GeneralError>(
                GeneralError::WitnessNotInTable,
            ),
            r is Ok ==> r->Ok_0@ == multiplicities(self.witness(), cq@.table) && positions_below(
                r->Ok_0@,
                cq.big_n as nat,
            ),
    {
        let ghost f = self.witness();
        let ghost keys = self.f_i_map.spec_keys();
        let mut m_i_vec: Vec<(usize, usize)> = Vec::new();
        let count = self.f_i_map.len();
        proof {
            self.f_i_map.lemma_wf();
        }
        let mut p: usize = 0;
        while p < count
            invariant
                p <= count,
                self.wf(),
                cq.wf(),
                f == self.witness(),
                keys == self.f_i_map.spec_keys(),
                count == keys.len(),
                t.len() == cq.big_n,
                cq.t_hash_map@ == table_map(t),
                m_i_vec.len() == p,
                forall|j: int| 0 <= j < p ==> t.contains(#[trigger] keys[j]),
                forall|j: int|
                    0 <= j < p ==> #[trigger] m_i_vec[j] == multiplicities(f, cq@.table)[j],
                positions_below(m_i_vec@, cq.big_n as nat),
            decreases count - p,
        {
            let key = self.f_i_map.key_at(p);
            let value = self.f_i_map.value_at(p);
            proof {
                self.f_i_map.lemma_wf();
                lemma_table_map(t, keys[p as int]);
            }
            match cq.t_hash_map.get(&key) {
                Some(index) => {
                    m_i_vec.push((index, value));
                },
                None => {
                    proof {
                        lemma_first_occurrences(f, keys[p as int]);
                        assert(keys.contains(keys[p as int]));
                        let j = choose|j: int| 0 <= j < f.len() && f[j] == keys[p as int];
                        assert(!t.contains(f[j]));
                    }
                    return Err(GeneralError::WitnessNotInTable);
                },
            }
            p += 1;
        }
        proof {
            assert(m_i_vec@ =~= multiplicities(f, cq@.table));
            if witness_leaves_table(f, t) {
                let j = choose|j: int| 0 <= j < f.len() && !t.contains(#[trigger] f[j]);
                lemma_first_occurrences(f, f[j]);
                assert(f.contains(f[j]));
                let q = choose|q: int| 0 <= q < keys.len() && keys[q] == f[j];
                assert(t.contains(keys[q]));
            }
        }
        Ok(m_i_vec)
    }

    /// The second round: the sparse commitments to A and its quotient, and
    /// the commitments that belong to B.
    #[verifier::rlimit(60)]
    fn compute_round_2(
        &self,
        cq: &Cq,
        f_x: &DensePolynomial,
        m_i_vec: &Vec<(usize, usize)>,
        t_i: &[Scalar],
        beta: Scalar,
        domain: &Domain,
        Ghost(one): Ghost<RoundOne>,
    ) -> (r: Result<RoundTwoResponse, GeneralError>)
        requires
            self.wf(),
            cq.wf(),
            domain.spec_size() == self.f_i.len(),
            self.f_i.len() <= cq.big_n,
            t_i.len() == cq.big_n,
            cq.t_hash_map@ == table_map(scalars_view(t_i@)),
            !witness_leaves_table(self.witness(), scalars_view(t_i@)),
            m_i_vec@ == multiplicities(self.witness(), cq@.table),
            positions_below(m_i_vec@, cq.big_n as nat),
            one.f_x == f_x@,
            one.m == m_i_vec@,
            one.beta == beta@,
            f_x@.len() <= self.f_i.len(),
            takes_values(f_x@, self.witness()),
        ensures
            r is Err <==> challenge_hits_witness(self.witness(), beta@),
            r is Err ==> r == Err::<RoundTwoResponse, GeneralError>(GeneralError::DivisionByZero),
            r is Ok ==> round_two(
                cq@,
                self.witness(),
                scalars_view(t_i@),
                one,
            ).remainder.len() == 0,
            r is Ok ==> r->Ok_0.matches(round_two(cq@, self.witness(), scalars_view(t_i@), one))
                && r->Ok_0.a_sparse.len() == m_i_vec.len() && r->Ok_0.b_0_x@.len()
                <= self.f_i.len() && r->Ok_0.q_b_x@.len() <= self.f_i.len(),
            r is Ok ==> crate::completeness::inverses_hold(self.witness(), beta@),
            r is Ok ==> forall|x: nat|
                fsub(
                    fmul(#[trigger] poly_eval(r->Ok_0.b_x@, x), fadd(poly_eval(f_x@, x), beta@)),
                    1,
                ) == fmul(
                    poly_eval(r->Ok_0.q_b_x@, x),
                    crate::protocol::vanishing_at(x, self.f_i.len() as nat),
                ),
    {
        let ghost f = self.witness();
        let ghost t = scalars_view(t_i@);
        let ghost two = round_two(cq@, f, t, one);
        let small_n = self.f_i.len();
        let mut a_sparse: Vec<Scalar> = Vec::new();
        let mut k: usize = 0;
        while k < m_i_vec.len()
            invariant
                k <= m_i_vec.len(),
                self.wf(),
                f == self.witness(),
                t == scalars_view(t_i@),
                t_i.len() == cq.big_n,
                cq.t_hash_map@ == table_map(t),
                cq@.table == cq.t_hash_map@,
                !witness_leaves_table(f, t),
                m_i_vec@ == multiplicities(f, cq@.table),
                positions_below(m_i_vec@, cq.big_n as nat),
                a_sparse.len() == k,
                forall|j: int|
                    0 <= j < k ==> a_sparse[j]@ == a_weights(m_i_vec@, t, beta@)[j],
            decreases m_i_vec.len() - k,
        {
            let index = m_i_vec[k].0;
            let value = Scalar::from_u64(m_i_vec[k].1 as u64);
            let tmp = t_i[index].add(&beta);
            match tmp.inverse() {
                Some(inv) => {
                    a_sparse.push(inv.mul(&value));
                },
                None => {
                    proof {
                        let keys = first_occurrences(f);
                        let key = keys[k as int];
                        assert(keys.contains(key));
                        lemma_first_occurrences(f, key);
                        let j = choose|j: int| 0 <= j < f.len() && f[j] == key;
                        assert(t.contains(f[j]));
                        lemma_table_map(t, key);
                        assert(t[index as int] == key);
                        assert(fadd(f[j], beta@) == 0);
                    }
                    return Err(GeneralError::DivisionByZero);
                },
            }
            k += 1;
        }
        proof {
            assert(scalars_view(a_sparse@) =~= two.a);
        }
        let cm1_a = sparse_msm(&cq.cm1_li, m_i_vec, &a_sparse);
        let cm1_q_a = sparse_msm(&cq.cm1_qi, m_i_vec, &a_sparse);
        let mut b_evals: Vec<Scalar> = Vec::new();
        let mut j: usize = 0;
        while j < small_n
            invariant
                j <= small_n,
                small_n == self.f_i.len(),
                f == self.witness(),
                b_evals.len() == j,
                forall|i: int| 0 <= i < j ==> fadd(f[i], beta@) != 0,
                forall|i: int| 0 <= i < j ==> b_evals[i]@ == b_values(f, beta@)[i],
                forall|i: int|
                    0 <= i < j ==> fmul(#[trigger] fadd(f[i], beta@), finv(fadd(f[i], beta@)))
                        == 1,
            decreases small_n - j,
        {
            match self.f_i[j].add(&beta).inverse() {
                Some(inv) => {
                    b_evals.push(inv);
                },
                None => {
                    proof {
                        assert(fadd(f[j as int], beta@) == 0);
                    }
                    return Err(GeneralError::DivisionByZero);
                },
            }
            j += 1;
        }
        proof {
            assert(scalars_view(b_evals@) =~= b_values(f, beta@));
            assert(!challenge_hits_witness(f, beta@));
        }
        let b_coeffs = domain.ifft(&b_evals);
        let ghost c_b = scalars_view(b_coeffs@);
        let b_x = DensePolynomial::from_coefficients_vec(b_coeffs);
        proof {
            crate::poly::lemma_trim_prefix(idft(b_values(f, beta@), small_n as nat));
        }
        let mut tail: Vec<Scalar> = Vec::new();
        let mut i: usize = 1;
        while i < b_x.coeffs.len()
            invariant
                1 <= i,
                i <= b_x.coeffs.len() || b_x.coeffs.len() == 0,
                b_x.coeffs.len() > 0 ==> tail@ == b_x.coeffs@.subrange(1, i as int),
                b_x.coeffs.len() == 0 ==> tail@.len() == 0,
            decreases b_x.coeffs.len() - i,
        {
            tail.push(b_x.coeffs[i]);
            proof {
                assert(b_x.coeffs@.subrange(1, i as int).push(b_x.coeffs@[i as int])
                    =~= b_x.coeffs@.subrange(1, i + 1));
            }
            i += 1;
        }
        proof {
            assert(scalars_view(tail@) =~= drop_constant(b_x@));
        }
        let b_0_x = DensePolynomial::from_coefficients_vec(tail);
        proof {
            crate::poly::lemma_trim_prefix(drop_constant(b_x@));
        }
        proof {
            crate::poly::lemma_trim_prefix(b_0_x@);
        }
        let cm1_b_0 = cq.kzg.commit_g1(&b_0_x);
        let mut beta_coeffs: Vec<Scalar> = Vec::new();
        beta_coeffs.push(beta);
        let beta_poly = DensePolynomial { coeffs: beta_coeffs };
        let mut one_coeffs: Vec<Scalar> = Vec::new();
        one_coeffs.push(Scalar::one());
        let one_poly = DensePolynomial { coeffs: one_coeffs };
        proof {
            assert(beta_poly@ =~= seq![beta@]);
            assert(one_poly@ =~= seq![1nat]);
        }
        let f_x_plus_beta = f_x.add(&beta_poly);
        let product_poly = b_x.mul(&f_x_plus_beta);
        let tmp = product_poly.sub(&one_poly);
        let ghost product = product_poly@;
        let (q_b_x, rem) = tmp.divide_by_vanishing_poly(small_n);
        beta.reduced();
        proof {
            use_type_invariant(domain);
            domain.lemma_order();
            crate::poly::lemma_coefficients_reduced(rem);
            lemma_quotient_of_b(small_n as nat, f, beta@, c_b, f_x@, product, q_b_x@, rem@);
        }
        if !rem.is_zero() {
            return Err(GeneralError::CannotDivideByVanishingPolynomial);
        }
        proof {
            crate::poly::lemma_trim_prefix(q_b_x@);
        }
        let cm1_q_b = cq.kzg.commit_g1(&q_b_x);
        let shift = cq.big_n + 1 - small_n;
        let mut p_x_coeffs: Vec<Scalar> = Vec::new();
        let mut i: usize = 0;
        while i < shift
            invariant
                i <= shift,
                p_x_coeffs.len() == i,
                forall|j: int| 0 <= j < i ==> p_x_coeffs[j]@ == 0,
            decreases shift - i,
        {
            p_x_coeffs.push(Scalar::zero());
            i += 1;
        }
        let mut i: usize = 0;
        while i < b_0_x.coeffs.len()
            invariant
                i <= b_0_x.coeffs.len(),
                p_x_coeffs.len() == shift + i,
                forall|j: int| 0 <= j < shift ==> p_x_coeffs[j]@ == 0,
                forall|j: int| 0 <= j < i ==> p_x_coeffs[shift + j]@ == b_0_x@[j],
            decreases b_0_x.coeffs.len() - i,
        {
            p_x_coeffs.push(b_0_x.coeffs[i]);
            i += 1;
        }
        proof {
            assert(scalars_view(p_x_coeffs@) =~= shift_up(b_0_x@, shift as nat));
            crate::poly::lemma_trim_prefix(shift_up(b_0_x@, shift as nat));
        }
        let p_x = DensePolynomial::from_coefficients_vec(p_x_coeffs);
        proof {
            crate::poly::lemma_trim_prefix(p_x@);
        }
        let cm1_p = cq.kzg.commit_g1(&p_x);
        Ok(
            RoundTwoResponse {
                b_x,
                b_0_x,
                q_b_x,
                a_sparse,
                cm1_a,
                cm1_q_a,
                cm1_b_0,
                cm1_q_b,
                cm1_p,
            },
        )
    }

    /// The third round: the evaluations at `gamma`, the challenge `eta`
    /// that they give, the batched opening, and the opening of A at zero.
    fn compute_round_3(
        &self,
        script: &mut Script,
        cq: &Cq,
        gamma: Scalar,
        b_0: Scalar,
        m_i_vec: &Vec<(usize, usize)>,
        f_x: &DensePolynomial,
        round_2: &RoundTwoResponse,
        table_domain: &Domain,
        Ghost(one): Ghost<RoundOne>,
        Ghost(two): Ghost<RoundTwo>,
    ) -> (r: RoundThreeResponse)
        requires
            self.wf(),
            cq.wf(),
            table_domain.spec_size() == cq.big_n,
            self.f_i.len() <= cq.big_n,
            old(script).digest() == Some(two.digest),
            one.f_x == f_x@,
            one.m == m_i_vec@,
            two.gamma == gamma@,
            round_2.matches(two),
            b_0@ == poly_eval(two.b_x, 0),
            positions_below(m_i_vec@, cq.big_n as nat),
            round_2.a_sparse.len() == m_i_vec.len(),
            f_x@.len() <= self.f_i.len(),
            round_2.b_0_x@.len() <= self.f_i.len(),
            round_2.q_b_x@.len() <= self.f_i.len(),
        ensures
            r.matches(round_three(cq@, self.witness(), one, two)),
            final(script).digest() == Some(round_three(cq@, self.witness(), one, two).digest),
            final(script).generated(),
            round_three(cq@, self.witness(), one, two).h_x.len() <= self.f_i.len(),
            forall|x: nat|
                fmul(
                    #[trigger] poly_eval(round_three(cq@, self.witness(), one, two).h_x, x),
                    fsub(x, gamma@),
                ) == fsub(
                    poly_eval(crate::protocol::combined_of(one, two, round_three(
                        cq@,
                        self.witness(),
                        one,
                        two,
                    )), x),
                    poly_eval(crate::protocol::combined_of(one, two, round_three(
                        cq@,
                        self.witness(),
                        one,
                        two,
                    )), gamma@),
                ),
    {
        let ghost three = round_three(cq@, self.witness(), one, two);
        let small_n = self.f_i.len();
        let b_0_gamma = round_2.b_0_x.evaluate(&gamma);
        let f_gamma = f_x.evaluate(&gamma);
        let big_n_inv = table_domain.size_inv();
        let a_0 = b_0.mul(&Scalar::from_u64(small_n as u64)).mul(&big_n_inv);
        let sent = [b_0_gamma, f_gamma, a_0];
        proof {
            assert(scalars_view(sent@) =~= seq![b_0_gamma@, f_gamma@, a_0@]);
            assert(self.witness().len() == small_n);
            vstd::arithmetic::div_mod::lemma_small_mod(small_n as nat, modulus());
            vstd::arithmetic::div_mod::lemma_small_mod(cq.big_n as nat, modulus());
        }
        script.feed_with_field_elements(sent.as_slice());
        let eta = script.generate_challenges::<1>().unwrap()[0];
        proof {
            assert(eta@ == three.eta);
        }
        let q_b_gamma = round_2.q_b_x.evaluate(&gamma);
        let eta_squared = eta.mul(&eta);
        let v = b_0_gamma.add(&eta.mul(&f_gamma)).add(&eta_squared.mul(&q_b_gamma));
        let mut v_coeffs: Vec<Scalar> = Vec::new();
        v_coeffs.push(v);
        let v_poly = DensePolynomial { coeffs: v_coeffs };
        proof {
            assert(v_poly@ =~= seq![v@]);
        }
        let tmp = round_2.b_0_x.add(&f_x.scale(&eta)).add(&round_2.q_b_x.scale(&eta_squared)).sub(
            &v_poly,
        );
        let h_x = tmp.divide_by_linear(&gamma);
        proof {
            crate::poly::lemma_trim_prefix(h_x@);
        }
        let cm1_pi_eta = cq.kzg.commit_g1(&h_x);
        let cm1_a_0_x = sparse_msm(&cq.cm1_l_i_quotient, m_i_vec, &round_2.a_sparse);
        RoundThreeResponse { b_0_gamma, f_gamma, a_0, cm1_pi_eta, cm1_a_0_x }
    }

    /// The proof that every value of the witness stands in the table `t_i`,
    /// whose preprocessing is `cq`. Every call makes its proof on a
    /// transcript of its own, so the proof depends on the witness, the table
    /// and the preprocessing alone; the prover keeps the transcript of its
    /// last proof, and stays as it is where there is none. There is a proof
    /// whenever every witness value stands in the table and no challenge
    /// makes a denominator zero: the quotient of B never leaves a
    /// remainder. A witness with a value outside the table may have any
    /// length; one within the table is no longer than the table.
    #[verifier::rlimit(80)]
    pub fn prove(&mut self, cq: &Cq, t_i: &[Scalar]) -> (r: Result<Proof, GeneralError>)
        requires
            old(self).wf(),
            cq.wf(),
            old(self).f_i.len() <= cq.big_n || witness_leaves_table(
                old(self).witness(),
                scalars_view(t_i@),
            ),
            t_i.len() == cq.big_n,
            cq.t_hash_map@ == table_map(scalars_view(t_i@)),
        ensures
            final(self).wf(),
            final(self).f_i == old(self).f_i,
            r is Ok <==> crate::protocol::proof_exists(
                cq@,
                old(self).witness(),
                scalars_view(t_i@),
            ),
            r != Err::<Proof, GeneralError>(GeneralError::CannotDivideByVanishingPolynomial),
            match r {
                Ok(proof) => prove_spec(
                    None,
                    cq@,
                    old(self).witness(),
                    scalars_view(t_i@),
                ) == Ok::<ProofView, GeneralError>(proof@) && proof.wf() && proof.small_n == old(self).f_i.len() && final(self).script.digest() == Some(
                    digest_after(None, proof@),
                ) && final(self).script.generated(),
                Err(e) => prove_spec(
                    None,
                    cq@,
                    old(self).witness(),
                    scalars_view(t_i@),
                ) == Err::<ProofView, GeneralError>(e) && *final(self) == *old(self),
            },
            witness_leaves_table(old(self).witness(), scalars_view(t_i@)) ==> r == Err::<
                Proof,
                GeneralError,
            >(GeneralError::WitnessNotInTable),
            r is Ok && cq.sound_for(scalars_view(t_i@)) ==> crate::protocol::accepts(
                None,
                cq@,
                r->Ok_0@,
            ),
    {
        let ghost f = self.witness();
        let ghost t = scalars_view(t_i@);
        let ghost start = None::<Seq<u8>>;
        let ghost one = round_one(start, cq@, f);
        let ghost two = round_two(cq@, f, t, one);
        let ghost three = round_three(cq@, f, one, two);
        let m_i_vec = match self.multiplicity_list(cq, Ghost(t)) {
            Ok(m) => m,
            Err(e) => {
                return Err(e);
            },
        };
        let table_domain = Domain::new(cq.big_n).unwrap();
        let witness_domain = Domain::new(self.f_i.len()).unwrap();
        proof {
            use_type_invariant(&table_domain);
            use_type_invariant(&witness_domain);
            table_domain.lemma_order();
            witness_domain.lemma_order();
        }
        let mut script = Script::new();
        let (f_x, cm1_f) = self.compute_cm1_fx(cq, &witness_domain);
        let first = [cm1_f];
        proof {
            assert(g1s_view(first@) =~= seq![cm1_f@]);
        }
        script.feed_with_commitments(first.as_slice());
        let cm1_m = self.compute_cm1_mx(cq, &m_i_vec);
        let second = [cm1_m];
        proof {
            assert(g1s_view(second@) =~= seq![cm1_m@]);
        }
        script.feed_with_commitments(second.as_slice());
        let beta = script.generate_challenges::<1>().unwrap()[0];
        proof {
            assert(beta@ == one.beta);
        }
        let proof_2 = match self.compute_round_2(
            cq,
            &f_x,
            &m_i_vec,
            t_i,
            beta,
            &witness_domain,
            Ghost(one),
        ) {
            Ok(p) => p,
            Err(e) => {
                return Err(e);
            },
        };
        let third = [proof_2.cm1_a, proof_2.cm1_q_a, proof_2.cm1_b_0, proof_2.cm1_q_b, proof_2.cm1_p];
        proof {
            assert(g1s_view(third@) =~= seq![
                two.cm1_a,
                two.cm1_q_a,
                two.cm1_b_0,
                two.cm1_q_b,
                two.cm1_p,
            ]);
        }
        script.feed_with_commitments(third.as_slice());
        let gamma = script.generate_challenges::<1>().unwrap()[0];
        proof {
            assert(gamma@ == two.gamma);
        }
        let z_h_gamma = gamma.pow(self.f_i.len() as u64).sub(&Scalar::one());
        if z_h_gamma.inverse().is_none() {
            return Err(GeneralError::DivisionByZero);
        }
        let b_0 = proof_2.b_x.evaluate(&Scalar::zero());
        let proof_3 = self.compute_round_3(
            &mut script,
            cq,
            gamma,
            b_0,
            &m_i_vec,
            &f_x,
            &proof_2,
            &table_domain,
            Ghost(one),
            Ghost(two),
        );
        let proof = Proof {
            small_n: self.f_i.len(),
            cm1_f,
            cm1_m,
            cm1_a: proof_2.cm1_a,
            cm1_q_a: proof_2.cm1_q_a,
            cm1_b_0: proof_2.cm1_b_0,
            cm1_q_b: proof_2.cm1_q_b,
            cm1_p: proof_2.cm1_p,
            b_0_gamma: proof_3.b_0_gamma,
            f_gamma: proof_3.f_gamma,
            a_0: proof_3.a_0,
            cm1_pi_eta: proof_3.cm1_pi_eta,
            cm1_a_0_x: proof_3.cm1_a_0_x,
        };
        proof {
            assert(proof@ == assemble(f, one, two, three));
            assert(digest_after(start, proof@) == three.digest);
            if cq.sound_for(t) {
                let s = cq.kzg.secret();
                vstd::arithmetic::div_mod::lemma_small_mod(cq.big_n as nat, modulus());
                vstd::arithmetic::div_mod::lemma_small_mod(f.len(), modulus());
                assert(crate::completeness::honest_setup(cq@, s, t)) by {
                    assert forall|i: int| 0 <= i < t.len() implies #[trigger] cq@.qi[i]
                        == crate::cq::scaled_opening(cq@.g1, idft(t, t.len()), i) by {
                        assert(cq@.qi[i] == cq.cm1_qi[i]@);
                    }
                }
                assert(crate::completeness::run_facts(f, cq@.big_n, one, two, three));
                crate::completeness::lemma_honest_proof_accepted(start, cq@, s, t, f);
            }
        }
        proof.valid();
        self.script = script;
        Ok(proof)
    }
}

} // verus!
