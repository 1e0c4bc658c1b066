//! The pieces of SAT compression that compute: the output truth tables of
//! a subcircuit, its truth-table digest, and reading the solver's gates.
//! Running the solver is left to the caller.
use vstd::prelude::*;

use crate::infra::circuit::{bit, eval_gates, gates_fit, CircuitSeq, Gate, lemma_shift_is_pow2, pow2_usize};
use crate::infra::ids_index::le_bytes_u64;
use crate::optimize::replacement::agree_below;

verus! {

/// Row `r` of the table: the image of `r` under the circuit.
pub open spec fn row_image(c: Seq<[u8; 3]>, r: usize) -> usize {
    eval_gates(r, c)
}

/// The truth table as bytes: for each row `r < 2^n` in order, the `n` low
/// bits of its image, least significant first, as 0 or 1.
pub open spec fn table_bit(c: Seq<[u8; 3]>, n: nat, j: int) -> u8 {
    if bit(row_image(c, (j / n as int) as usize), (j % n as int) as u8) {
        1u8
    } else {
        0u8
    }
}

/// The output bits of every row, row after row.
pub fn truth_table_bits(subcircuit: &CircuitSeq, num_wires: usize) -> (r: Vec<u8>)
    requires
        num_wires < usize::BITS,
        gates_fit(subcircuit@),
        pow2_usize(num_wires) * num_wires <= usize::MAX,
    ensures
        r@.len() == pow2_usize(num_wires) * num_wires,
        forall|j: int| 0 <= j < r@.len() ==> #[trigger] r@[j] == table_bit(subcircuit@, num_wires as nat, j),
{
    let n = num_wires;
    let rows: usize = 1usize << n;
    proof {
        lemma_shift_is_pow2(n);
    }
    let mut table: Vec<u8> = Vec::new();
    let mut row: usize = 0;
    while row < rows
        invariant
            row <= rows,
            rows == pow2_usize(n),
            n == num_wires,
            n < usize::BITS,
            rows * n <= usize::MAX,
            gates_fit(subcircuit@),
            table@.len() == row * n,
            forall|j: int| 0 <= j < table@.len() ==> #[trigger] table@[j] == table_bit(subcircuit@, n as nat, j),
        decreases rows - row,
    {
        let state = Gate::evaluate_index_list(row, subcircuit.gates.as_slice());
        let mut i: usize = 0;
        let ghost base = table@.len();
        proof {
            assert((row + 1) * n <= rows * n) by (nonlinear_arith)
                requires
                    row < rows,
            ;
            assert((row + 1) * n == row * n + n) by (nonlinear_arith);
        }
        while i < n
            invariant
                i <= n,
                n < usize::BITS,
                base == row * n,
                (row + 1) * n <= usize::MAX,
                row < rows,
                state == eval_gates(row, subcircuit@),
                table@.len() == base + i,
                forall|j: int| 0 <= j < table@.len() ==> #[trigger] table@[j] == table_bit(subcircuit@, n as nat, j),
            decreases n - i,
        {
            let b: u8 = ((state >> i) & 1) as u8;
            proof {
                let j = base + i;
                assert(j / (n as int) == row as int && j % (n as int) == i as int) by (nonlinear_arith)
                    requires
                        j == row * n + i,
                        0 <= i < n,
                ;
                let v = (state >> i) & 1usize;
                assert(v == 0 || v == 1) by (bit_vector)
                    requires
                        v == (state >> i) & 1usize,
                ;
                assert(bit(state, i as u8) == (v == 1usize));
            }
            table.push(b);
            i += 1;
        }
        row += 1;
    }
    table
}

/// The solver's gates as a circuit: each entry gives target and controls in
/// its first three places (cut to a byte); an entry with fewer than three
/// places makes the answer `None`.
pub fn parse_sat_gates(gates_data: Vec<Vec<usize>>) -> (r: Option<CircuitSeq>)
    ensures
        r is Some <==> forall|k: int| 0 <= k < gates_data@.len() ==> (#[trigger] gates_data@[k])@.len() >= 3,
        r matches Some(c) ==> c@.len() == gates_data@.len() && forall|k: int|
            0 <= k < c@.len() ==> #[trigger] c@[k] == [
                gates_data@[k]@[0] as u8,
                gates_data@[k]@[1] as u8,
                gates_data@[k]@[2] as u8,
            ],
{
    let mut gates: Vec<[u8; 3]> = Vec::new();
    let mut k: usize = 0;
    while k < gates_data.len()
        invariant
            k <= gates_data@.len(),
            gates@.len() == k,
            forall|q: int| 0 <= q < k ==> (#[trigger] gates_data@[q])@.len() >= 3,
            forall|q: int|
                0 <= q < k ==> #[trigger] gates@[q] == [
                    gates_data@[q]@[0] as u8,
                    gates_data@[q]@[1] as u8,
                    gates_data@[q]@[2] as u8,
                ],
        decreases gates_data@.len() - k,
    {
        let g = &gates_data[k];
        if g.len() >= 3 {
            gates.push([g[0] as u8, g[1] as u8, g[2] as u8]);
        } else {
            return None;
        }
        k += 1;
    }
    Some(CircuitSeq { gates })
}

/// The output truth tables as strings: for each wire `i < n`, character
/// `r` is `'1'` when bit `i` of the image of row `r` is set, else `'0'`.
pub fn sat_truth_tables(subcircuit: &CircuitSeq, num_wires: usize) -> (r: Vec<String>)
    requires
        num_wires < usize::BITS,
        gates_fit(subcircuit@),
    ensures
        r@.len() == num_wires,
        forall|i: int|
            0 <= i < num_wires ==> (#[trigger] r@[i])@.len() == pow2_usize(num_wires) && forall|x: int|
                0 <= x < r@[i]@.len() ==> #[trigger] r@[i]@[x] == (if bit(row_image(subcircuit@, x as usize), i as u8) {
                    '1'
                } else {
                    '0'
                }),
{
    let n = num_wires;
    let rows: usize = 1usize << n;
    proof {
        lemma_shift_is_pow2(n);
    }
    let mut outputs: Vec<String> = Vec::new();
    let mut i: usize = 0;
    while i < n
        invariant
            i <= n,
            n == num_wires,
            n < usize::BITS,
            rows == pow2_usize(n),
            gates_fit(subcircuit@),
            outputs@.len() == i,
            forall|q: int|
                0 <= q < i ==> (#[trigger] outputs@[q])@.len() == rows && forall|x: int|
                    0 <= x < outputs@[q]@.len() ==> #[trigger] outputs@[q]@[x] == (if bit(row_image(subcircuit@, x as usize), q as u8) {
                        '1'
                    } else {
                        '0'
                    }),
        decreases n - i,
    {
        let mut table = String::new();
        let mut row: usize = 0;
        while row < rows
            invariant
                row <= rows,
                i < n,
                n < usize::BITS,
                gates_fit(subcircuit@),
                table@.len() == row,
                forall|x: int|
                    0 <= x < row ==> #[trigger] table@[x] == (if bit(row_image(subcircuit@, x as usize), i as u8) {
                        '1'
                    } else {
                        '0'
                    }),
            decreases rows - row,
        {
            let state = Gate::evaluate_index_list(row, subcircuit.gates.as_slice());
            let ghost before = table@;
            if (state >> i) & 1 == 1 {
                table.append("1");
                proof {
                    reveal_strlit("1");
                }
            } else {
                table.append("0");
                proof {
                    reveal_strlit("0");
                }
            }
            proof {
                assert forall|x: int| 0 <= x < row + 1 implies #[trigger] table@[x] == (if bit(row_image(subcircuit@, x as usize), i as u8) {
                    '1'
                } else {
                    '0'
                }) by {
                    if x < row {
                        assert(table@[x] == before[x]);
                    }
                }
            }
            row += 1;
        }
        let ghost before_o = outputs@;
        outputs.push(table);
        proof {
            assert forall|q: int| 0 <= q < i + 1 implies (#[trigger] outputs@[q])@.len() == rows && forall|x: int|
                0 <= x < outputs@[q]@.len() ==> #[trigger] outputs@[q]@[x] == (if bit(row_image(subcircuit@, x as usize), q as u8) {
                    '1'
                } else {
                    '0'
                }) by {
                if q < i {
                    assert(outputs@[q] == before_o[q]);
                }
            }
        }
        i += 1;
    }
    outputs
}

/// The standard default hasher's hash of a byte vector.
pub uninterp spec fn std_hash_of_bytes(b: Seq<u8>) -> u64;

/// `BuildHasher::hash_one` with the standard default hasher on a byte
/// vector: the same as `DefaultHasher::new()`, `hash`, `finish`.  All
/// default hashers start from the same keys, so the result is a function of
/// the bytes.
#[verifier::external_body]
fn default_hash_bytes(b: &Vec<u8>) -> (h: u64)
    ensures
        h == std_hash_of_bytes(b@),
{
    std::hash::BuildHasher::hash_one(
        &std::hash::BuildHasherDefault::<std::collections::hash_map::DefaultHasher>::default(),
        b,
    )
}

/// The standard default hasher's hash of a `u64` followed by a `usize`.
pub uninterp spec fn std_hash_of_u64_usize(a: u64, n: usize) -> u64;

/// `BuildHasher::hash_one` with the standard default hasher on the pair
/// `(a, n)`: the same as hashing `a` and then `n` into one new
/// `DefaultHasher`.  The result is a function of `a` and `n`.
#[verifier::external_body]
fn default_hash_u64_usize(a: u64, n: usize) -> (h: u64)
    ensures
        h == std_hash_of_u64_usize(a, n),
{
    std::hash::BuildHasher::hash_one(
        &std::hash::BuildHasherDefault::<std::collections::hash_map::DefaultHasher>::default(),
        (a, n),
    )
}

/// The big-endian bytes of `x`.
pub open spec fn be_bytes_u64(x: u64) -> Seq<u8> {
    le_bytes_u64(x).reverse()
}

/// Writes the eight bytes of `x` at `at`, least significant first when
/// `little`, else most significant first.
fn put_u64(out: &mut [u8; 32], at: usize, x: u64, little: bool)
    requires
        at + 8 <= 32,
    ensures
        forall|j: int| 0 <= j < 32 && !(at <= j < at + 8) ==> final(out)@[j] == old(out)@[j],
        forall|j: int|
            0 <= j < 8 ==> #[trigger] final(out)@[at + j] == (if little {
                le_bytes_u64(x)[j]
            } else {
                be_bytes_u64(x)[j]
            }),
{
    let b0 = (x & 0xff) as u8;
    let b1 = ((x >> 8) & 0xff) as u8;
    let b2 = ((x >> 16) & 0xff) as u8;
    let b3 = ((x >> 24) & 0xff) as u8;
    let b4 = ((x >> 32) & 0xff) as u8;
    let b5 = ((x >> 40) & 0xff) as u8;
    let b6 = ((x >> 48) & 0xff) as u8;
    let b7 = ((x >> 56) & 0xff) as u8;
    if little {
        out[at] = b0;
        out[at + 1] = b1;
        out[at + 2] = b2;
        out[at + 3] = b3;
        out[at + 4] = b4;
        out[at + 5] = b5;
        out[at + 6] = b6;
        out[at + 7] = b7;
    } else {
        out[at] = b7;
        out[at + 1] = b6;
        out[at + 2] = b5;
        out[at + 3] = b4;
        out[at + 4] = b3;
        out[at + 5] = b2;
        out[at + 6] = b1;
        out[at + 7] = b0;
    }
    proof {
        let le = le_bytes_u64(x);
        assert(le =~= seq![b0, b1, b2, b3, b4, b5, b6, b7]);
        assert(be_bytes_u64(x) =~= seq![b7, b6, b5, b4, b3, b2, b1, b0]);
    }
}

/// The truth table bytes of `c` on `n` wires (see `table_bit`).
pub open spec fn truth_table(c: Seq<[u8; 3]>, n: usize) -> Seq<u8> {
    Seq::new((pow2_usize(n) * n) as nat, |j: int| table_bit(c, n as nat, j))
}

/// The digest of the truth table: the hash `h1` of the table bytes, the
/// hash `h2` of `h1` with the table length, then `h1` and `h2`
/// little-endian and again big-endian.
pub open spec fn spec_canonical_hash(c: Seq<[u8; 3]>, n: usize) -> Seq<u8> {
    let table = truth_table(c, n);
    let h1 = std_hash_of_bytes(table);
    let h2 = std_hash_of_u64_usize(h1, table.len() as usize);
    le_bytes_u64(h1) + le_bytes_u64(h2) + be_bytes_u64(h1) + be_bytes_u64(h2)
}

/// Circuits that compute the same function on the inputs below `2^n` have
/// the same truth-table digest: the digest depends on the function only.
pub proof fn lemma_canonical_hash_of_function(a: Seq<[u8; 3]>, b: Seq<[u8; 3]>, n: usize)
    requires
        agree_below(a, b, n as nat),
    ensures
        spec_canonical_hash(a, n) == spec_canonical_hash(b, n),
{
    assert(truth_table(a, n) =~= truth_table(b, n)) by {
        assert forall|j: int| 0 <= j < truth_table(a, n).len() implies #[trigger] truth_table(a, n)[j]
            == truth_table(b, n)[j] by {
            let p = pow2_usize(n);
            vstd::arithmetic::power2::lemma_pow2_pos(n as nat);
            assert(truth_table(a, n).len() == p * n);
            assert(n > 0) by (nonlinear_arith)
                requires
                    0 <= j < p * n,
                    p > 0,
            ;
            assert(0 <= j / (n as int) < p) by (nonlinear_arith)
                requires
                    0 <= j < p * n,
                    n > 0,
            ;
            let row = (j / (n as int)) as usize;
            assert((row as int) < vstd::arithmetic::power2::pow2(n as nat));
            assert(eval_gates(row, a) == eval_gates(row, b));
        }
    }
}

/// A 32-byte digest of the truth table of a subcircuit on `num_wires`
/// wires: the hash `h1` of the table bits, the hash `h2` of `h1` with the
/// table length, then `h1` and `h2` little-endian and again big-endian.
pub fn compute_canonical_hash(subcircuit: &CircuitSeq, num_wires: usize) -> (r: [u8; 32])
    requires
        num_wires < usize::BITS,
        gates_fit(subcircuit@),
        pow2_usize(num_wires) * num_wires <= usize::MAX,
    ensures
        r@ == spec_canonical_hash(subcircuit@, num_wires),
{
    let table = truth_table_bits(subcircuit, num_wires);
    let h1 = default_hash_bytes(&table);
    let h2 = default_hash_u64_usize(h1, table.len());
    let mut result = [0u8; 32];
    put_u64(&mut result, 0, h1, true);
    let ghost r1 = result@;
    put_u64(&mut result, 8, h2, true);
    let ghost r2 = result@;
    put_u64(&mut result, 16, h1, false);
    let ghost r3 = result@;
    put_u64(&mut result, 24, h2, false);
    proof {
        let expected = le_bytes_u64(h1) + le_bytes_u64(h2) + be_bytes_u64(h1) + be_bytes_u64(h2);
        assert forall|j: int| 0 <= j < 32 implies result@[j] == expected[j] by {
            if j < 8 {
                assert(r1[0 + j] == le_bytes_u64(h1)[j]);
                assert(result@[j] == r3[j] && r3[j] == r2[j] && r2[j] == r1[j]);
            } else if j < 16 {
                assert(r2[8 + (j - 8)] == le_bytes_u64(h2)[j - 8]);
                assert(result@[j] == r3[j] && r3[j] == r2[j]);
            } else if j < 24 {
                assert(r3[16 + (j - 16)] == be_bytes_u64(h1)[j - 16]);
                assert(result@[j] == r3[j]);
            } else {
                assert(result@[24 + (j - 24)] == be_bytes_u64(h2)[j - 24]);
            }
        }
        assert(table@ =~= truth_table(subcircuit@, num_wires));
        assert(result@ =~= le_bytes_u64(h1) + le_bytes_u64(h2) + be_bytes_u64(h1) + be_bytes_u64(h2));
    }
    result
}

} // verus!
