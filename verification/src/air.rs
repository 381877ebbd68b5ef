//! The parameters of a Poseidon permutation as its arithmetization reads
//! them: round counts, round constants and the MDS layer.

use vstd::prelude::*;

verus! {

/// The parameters of a Poseidon permutation of `WIDTH` lanes and `N_ROUNDS`
/// rounds with S-box exponent `ALPHA`.
///
/// A value always holds `2 * half_num_full_rounds + num_partial_rounds ==
/// N_ROUNDS` and one round constant for each lane of each round.
pub struct PoseidonAir<Mds: Sync, const WIDTH: usize, const ALPHA: u64, const N_ROUNDS: usize> {
    half_num_full_rounds: usize,
    num_partial_rounds: usize,
    round_constants: Vec<u64>,
    mds: Mds,
}

impl<Mds: Sync, const WIDTH: usize, const ALPHA: u64, const N_ROUNDS: usize> PoseidonAir<
    Mds,
    WIDTH,
    ALPHA,
    N_ROUNDS,
> {
    /// The round counts add up to `N_ROUNDS` and `constants` has one entry
    /// for each lane of each round.
    pub open spec fn shape_fits(half_full: nat, partial: nat, constants: nat) -> bool {
        &&& 2 * half_full + partial == N_ROUNDS
        &&& constants == WIDTH * N_ROUNDS
    }

    #[verifier::type_invariant]
    spec fn well_formed(&self) -> bool {
        Self::shape_fits(
            self.half_num_full_rounds as nat,
            self.num_partial_rounds as nat,
            self.round_constants@.len(),
        )
    }

    /// Half the number of full rounds.
    pub closed spec fn spec_half_num_full_rounds(&self) -> nat {
        self.half_num_full_rounds as nat
    }

    /// The number of partial rounds.
    pub closed spec fn spec_num_partial_rounds(&self) -> nat {
        self.num_partial_rounds as nat
    }

    /// The round constants, round by round and lane by lane within a round.
    pub closed spec fn spec_round_constants(&self) -> Seq<u64> {
        self.round_constants@
    }

    /// The MDS layer.
    pub closed spec fn spec_mds(&self) -> Mds {
        self.mds
    }

    /// Collects the parameters. The round counts have to add up to
    /// `N_ROUNDS`, and `round_constants` has to hold `WIDTH * N_ROUNDS` entries.
    pub fn new(
        half_num_full_rounds: usize,
        num_partial_rounds: usize,
        round_constants: Vec<u64>,
        mds: Mds,
    ) -> (air: Self)
        requires
            Self::shape_fits(
                half_num_full_rounds as nat,
                num_partial_rounds as nat,
                round_constants@.len(),
            ),
        ensures
            air.spec_half_num_full_rounds() == half_num_full_rounds,
            air.spec_num_partial_rounds() == num_partial_rounds,
            air.spec_round_constants() == round_constants@,
            air.spec_mds() == mds,
    {
        Self { half_num_full_rounds, num_partial_rounds, round_constants, mds }
    }

    /// Whether `new` accepts these round counts with `constants` round
    /// constants.
    pub fn fits(half_num_full_rounds: usize, num_partial_rounds: usize, constants: usize) -> (b:
        bool)
        ensures
            b == Self::shape_fits(
                half_num_full_rounds as nat,
                num_partial_rounds as nat,
                constants as nat,
            ),
    {
        let rounds = match half_num_full_rounds.checked_mul(2) {
            Some(full) => full.checked_add(num_partial_rounds),
            None => None,
        };
        match (rounds, WIDTH.checked_mul(N_ROUNDS)) {
            (Some(r), Some(c)) => r == N_ROUNDS && constants == c,
            _ => false,
        }
    }

    /// Half the number of full rounds.
    pub fn half_num_full_rounds(&self) -> (r: usize)
        ensures
            r == self.spec_half_num_full_rounds(),
    {
        self.half_num_full_rounds
    }

    /// The number of partial rounds.
    pub fn num_partial_rounds(&self) -> (r: usize)
        ensures
            r == self.spec_num_partial_rounds(),
    {
        self.num_partial_rounds
    }

    /// The total number of rounds, which is `N_ROUNDS`.
    pub fn num_rounds(&self) -> (r: usize)
        ensures
            r == 2 * self.spec_half_num_full_rounds() + self.spec_num_partial_rounds(),
            r == N_ROUNDS,
    {
        proof {
            use_type_invariant(self);
        }
        2 * self.half_num_full_rounds + self.num_partial_rounds
    }

    /// The constant added to lane `lane` in round `round`.
    pub fn round_constant(&self, round: usize, lane: usize) -> (c: u64)
        requires
            round < N_ROUNDS,
            lane < WIDTH,
        ensures
            round * WIDTH + lane < self.spec_round_constants().len(),
            c == self.spec_round_constants()[round * WIDTH + lane],
    {
        proof {
            use_type_invariant(self);
            assert(self.round_constants.len() == WIDTH * N_ROUNDS);
            assert(0 <= round * WIDTH && round * WIDTH + lane < WIDTH * N_ROUNDS)
                by (nonlinear_arith)
                requires
                    round < N_ROUNDS,
                    lane < WIDTH,
            ;
        }
        self.round_constants[round * WIDTH + lane]
    }

    /// The MDS layer.
    pub fn mds(&self) -> (m: &Mds)
        ensures
            *m == self.spec_mds(),
    {
        &self.mds
    }
}

} // verus!
