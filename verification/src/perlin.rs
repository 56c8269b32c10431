//! The generator's tables and the hashing of lattice points into them.

use crate::lattice::combine;
use crate::lattice::combine_entries;
use crate::lattice::is_power_of_two;
use crate::lattice::lemma_combine_power_of_two;
use crate::lattice::lemma_wrap_power_of_two;
use crate::lattice::lemma_wrap_range;
use crate::lattice::lemma_wrap_step;
use crate::lattice::next_place;
use crate::lattice::wrap;
use crate::lattice::wrap_coordinate;
use crate::permutation::generate_permutations;
use crate::permutation::is_identity;
use crate::permutation::is_permutation;
use crate::permutation::is_shuffled_identity;
use crate::permutation::is_sorted;
use crate::permutation::lemma_shuffled_identity;
use crate::permutation::lemma_sorted_permutation_is_identity;
use crate::random::entropy_rng;
use crate::random::seeded_rng;
use rand::rngs::StdRng;
use vstd::arithmetic::div_mod::lemma_mod_bound;
use vstd::prelude::*;

verus! {

/// The smallest table size a generator accepts: below it the shuffle has no
/// place to visit.
pub const MIN_POINT_COUNT: usize = 3;

/// Why a generator could not be built.
#[derive(Debug, Clone, Copy, PartialEq, Eq, Structural)]
pub enum PerlinError {
    /// The table size asked for is below [`MIN_POINT_COUNT`].
    InvalidConfiguration,
}

/// The mathematical content of a [`Perlin`]: the table size and the three
/// permutation tables, one per axis.
pub struct Tables {
    pub point_count: nat,
    pub perm_x: Seq<usize>,
    pub perm_y: Seq<usize>,
    pub perm_z: Seq<usize>,
}

impl Tables {
    /// The tables are what a constructor leaves: at least
    /// [`MIN_POINT_COUNT`] places, and on each axis a shuffled identity over
    /// them.
    pub open spec fn wf(self) -> bool {
        &&& MIN_POINT_COUNT <= self.point_count <= usize::MAX
        &&& is_shuffled_identity(self.perm_x, self.point_count)
        &&& is_shuffled_identity(self.perm_y, self.point_count)
        &&& is_shuffled_identity(self.perm_z, self.point_count)
    }

    /// The index, into any table of `point_count` scalars, that the lattice
    /// point `(x, y, z)` hashes to: each coordinate is folded onto its axis'
    /// permutation table, and the three entries found there are combined.
    pub open spec fn index_at(self, x: int, y: int, z: int) -> int {
        let n = self.point_count as int;
        combine(
            self.perm_x[wrap(x, n)],
            self.perm_y[wrap(y, n)],
            self.perm_z[wrap(z, n)],
            self.point_count as usize,
        )
    }
}

/// Each of the three tables of a generator is a permutation of
/// `0..point_count`.
pub proof fn lemma_tables_are_permutations(tables: Tables)
    requires
        tables.wf(),
    ensures
        is_permutation(tables.perm_x, tables.point_count),
        is_permutation(tables.perm_y, tables.point_count),
        is_permutation(tables.perm_z, tables.point_count),
{
    lemma_shuffled_identity(tables.perm_x, tables.point_count);
    lemma_shuffled_identity(tables.perm_y, tables.point_count);
    lemma_shuffled_identity(tables.perm_z, tables.point_count);
}

/// Each of the three tables of a generator, once sorted, is exactly
/// `0, 1, ..., point_count - 1`: it holds every value below `point_count`
/// once and nothing else.
pub proof fn lemma_sorted_table_is_identity(tables: Tables, table: Seq<usize>, sorted: Seq<usize>)
    requires
        tables.wf(),
        table == tables.perm_x || table == tables.perm_y || table == tables.perm_z,
        is_sorted(sorted),
        sorted.to_multiset() == table.to_multiset(),
    ensures
        is_identity(sorted, tables.point_count),
{
    lemma_tables_are_permutations(tables);
    lemma_sorted_permutation_is_identity(table, sorted, tables.point_count);
}

/// Every lattice point hashes to an index inside a table of `point_count`
/// scalars.
pub proof fn lemma_index_in_range(tables: Tables, x: int, y: int, z: int)
    requires
        tables.wf(),
    ensures
        0 <= tables.index_at(x, y, z) < tables.point_count,
{
    let n = tables.point_count as int;
    lemma_mod_bound(
        (tables.perm_x[wrap(x, n)] ^ tables.perm_y[wrap(y, n)] ^ tables.perm_z[wrap(z, n)]) as int,
        n,
    );
}

/// The hash repeats with period `point_count` along every axis.
pub proof fn lemma_index_periodic(tables: Tables, x: int, y: int, z: int)
    requires
        tables.wf(),
    ensures
        tables.index_at(x + tables.point_count, y, z) == tables.index_at(x, y, z),
        tables.index_at(x, y + tables.point_count, z) == tables.index_at(x, y, z),
        tables.index_at(x, y, z + tables.point_count) == tables.index_at(x, y, z),
{
    let n = tables.point_count as int;
    lemma_wrap_range(x, n);
    lemma_wrap_range(y, n);
    lemma_wrap_range(z, n);
}

/// When `point_count` is a power of two, the index of a lattice point is the
/// plain exclusive or of the three permutation entries it selects.
pub proof fn lemma_index_power_of_two(tables: Tables, x: int, y: int, z: int)
    requires
        tables.wf(),
        is_power_of_two(tables.point_count as usize),
    ensures
        tables.index_at(x, y, z) == tables.perm_x[wrap(x, tables.point_count as int)]
            ^ tables.perm_y[wrap(y, tables.point_count as int)]
            ^ tables.perm_z[wrap(z, tables.point_count as int)],
{
    let n = tables.point_count as int;
    lemma_tables_are_permutations(tables);
    lemma_wrap_range(x, n);
    lemma_wrap_range(y, n);
    lemma_wrap_range(z, n);
    lemma_combine_power_of_two(
        tables.perm_x[wrap(x, n)],
        tables.perm_y[wrap(y, n)],
        tables.perm_z[wrap(z, n)],
        tables.point_count as usize,
    );
}

/// When `point_count` is a power of two, the index of a lattice point is the
/// classic masked hash: each coordinate is masked with `point_count - 1`, and
/// the three permutation entries found are combined by exclusive or. For 256
/// places the mask is 255.
pub proof fn lemma_index_masked(tables: Tables, x: isize, y: isize, z: isize)
    requires
        tables.wf(),
        is_power_of_two(tables.point_count as usize),
        tables.point_count <= isize::MAX,
    ensures
        ({
            let mask = (tables.point_count - 1) as isize;
            tables.index_at(x as int, y as int, z as int) == tables.perm_x[(x & mask) as int]
                ^ tables.perm_y[(y & mask) as int] ^ tables.perm_z[(z & mask) as int]
        }),
{
    let n = tables.point_count as usize;
    lemma_wrap_power_of_two(x, n);
    lemma_wrap_power_of_two(y, n);
    lemma_wrap_power_of_two(z, n);
    lemma_index_power_of_two(tables, x as int, y as int, z as int);
}

/// The integer half of a noise generator: three independent permutation
/// tables over `0..point_count`, fixed once built, through which every
/// lattice point is hashed to the index of a scalar.
#[derive(Debug)]
pub struct Perlin {
    point_count: usize,
    perm_x: Vec<usize>,
    perm_y: Vec<usize>,
    perm_z: Vec<usize>,
}

impl View for Perlin {
    type V = Tables;

    closed spec fn view(&self) -> Tables {
        Tables {
            point_count: self.point_count as nat,
            perm_x: self.perm_x@,
            perm_y: self.perm_y@,
            perm_z: self.perm_z@,
        }
    }
}

impl Perlin {
    #[verifier::type_invariant]
    spec fn inv(&self) -> bool {
        self@.wf()
    }

    /// Builds the tables for `point_count` places, drawing every shuffle from
    /// `rng`. A size below [`MIN_POINT_COUNT`] is refused; any other size
    /// yields well-formed tables, whatever `rng` produces.
    pub fn with_rng(point_count: usize, rng: &mut StdRng) -> (built: Result<Perlin, PerlinError>)
        ensures
            built is Err <==> point_count < MIN_POINT_COUNT,
            built matches Err(e) ==> e == PerlinError::InvalidConfiguration,
            built matches Ok(p) ==> p@.point_count == point_count && p@.wf(),
    {
        if point_count < MIN_POINT_COUNT {
            return Err(PerlinError::InvalidConfiguration);
        }
        let perm_x = generate_permutations(point_count, point_count, rng);
        let perm_y = generate_permutations(point_count, point_count, rng);
        let perm_z = generate_permutations(point_count, point_count, rng);
        Ok(Perlin { point_count, perm_x, perm_y, perm_z })
    }

    /// Builds the tables for `point_count` places from a generator seeded by
    /// the operating system.
    pub fn new(point_count: usize) -> (built: Result<Perlin, PerlinError>)
        ensures
            built is Err <==> point_count < MIN_POINT_COUNT,
            built matches Err(e) ==> e == PerlinError::InvalidConfiguration,
            built matches Ok(p) ==> p@.point_count == point_count && p@.wf(),
    {
        let mut rng = entropy_rng();
        Perlin::with_rng(point_count, &mut rng)
    }

    /// Builds the tables for `point_count` places from a generator seeded
    /// with `seed`.
    pub fn with_seed(point_count: usize, seed: u64) -> (built: Result<Perlin, PerlinError>)
        ensures
            built is Err <==> point_count < MIN_POINT_COUNT,
            built matches Err(e) ==> e == PerlinError::InvalidConfiguration,
            built matches Ok(p) ==> p@.point_count == point_count && p@.wf(),
    {
        let mut rng = seeded_rng(seed);
        Perlin::with_rng(point_count, &mut rng)
    }

    /// The table size.
    pub fn point_count(&self) -> (n: usize)
        ensures
            n == self@.point_count,
            self@.wf(),
    {
        proof {
            use_type_invariant(self);
        }
        self.point_count
    }

    /// The permutation table of the x axis.
    pub fn perm_x(&self) -> (table: &[usize])
        ensures
            table@ == self@.perm_x,
            self@.wf(),
    {
        proof {
            use_type_invariant(self);
        }
        self.perm_x.as_slice()
    }

    /// The permutation table of the y axis.
    pub fn perm_y(&self) -> (table: &[usize])
        ensures
            table@ == self@.perm_y,
            self@.wf(),
    {
        proof {
            use_type_invariant(self);
        }
        self.perm_y.as_slice()
    }

    /// The permutation table of the z axis.
    pub fn perm_z(&self) -> (table: &[usize])
        ensures
            table@ == self@.perm_z,
            self@.wf(),
    {
        proof {
            use_type_invariant(self);
        }
        self.perm_z.as_slice()
    }

    /// The index of the scalar that belongs to the lattice point `(x, y, z)`.
    pub fn lattice_index(&self, x: isize, y: isize, z: isize) -> (index: usize)
        ensures
            index == self@.index_at(x as int, y as int, z as int),
            index < self@.point_count,
            self@.wf(),
    {
        proof {
            use_type_invariant(self);
            lemma_tables_are_permutations(self@);
        }
        let n = self.point_count;
        let px = wrap_coordinate(x, n);
        let py = wrap_coordinate(y, n);
        let pz = wrap_coordinate(z, n);
        combine_entries(self.perm_x[px], self.perm_y[py], self.perm_z[pz], n)
    }

    /// The indices of the scalars at the eight corners of the lattice cell
    /// whose lowest corner is `(i, j, k)`: the entry at `[di][dj][dk]` belongs
    /// to the lattice point `(i + di, j + dj, k + dk)`.
    pub fn corner_indices(&self, i: isize, j: isize, k: isize) -> (corners: [[[usize; 2]; 2]; 2])
        ensures
            forall|di: int, dj: int, dk: int|
                0 <= di < 2 && 0 <= dj < 2 && 0 <= dk < 2 ==> #[trigger] corners[di][dj][dk]
                    == self@.index_at(i + di, j + dj, k + dk),
            forall|di: int, dj: int, dk: int|
                0 <= di < 2 && 0 <= dj < 2 && 0 <= dk < 2 ==> #[trigger] corners[di][dj][dk]
                    < self@.point_count,
            corners[0][0][0] == self@.index_at(i as int, j as int, k as int),
            self@.wf(),
    {
        proof {
            use_type_invariant(self);
            lemma_tables_are_permutations(self@);
            lemma_wrap_step(i as int, self.point_count as int);
            lemma_wrap_step(j as int, self.point_count as int);
            lemma_wrap_step(k as int, self.point_count as int);
        }
        let n = self.point_count;
        let x0 = wrap_coordinate(i, n);
        let y0 = wrap_coordinate(j, n);
        let z0 = wrap_coordinate(k, n);
        let x1 = next_place(x0, n);
        let y1 = next_place(y0, n);
        let z1 = next_place(z0, n);
        let a0 = self.perm_x[x0];
        let a1 = self.perm_x[x1];
        let b0 = self.perm_y[y0];
        let b1 = self.perm_y[y1];
        let c0 = self.perm_z[z0];
        let c1 = self.perm_z[z1];
        [
            [
                [combine_entries(a0, b0, c0, n), combine_entries(a0, b0, c1, n)],
                [combine_entries(a0, b1, c0, n), combine_entries(a0, b1, c1, n)],
            ],
            [
                [combine_entries(a1, b0, c0, n), combine_entries(a1, b0, c1, n)],
                [combine_entries(a1, b1, c0, n), combine_entries(a1, b1, c1, n)],
            ],
        ]
    }
}

} // verus!
