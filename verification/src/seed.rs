//! Cases drawn from a seed.
use crate::case::{
    signatures_at, CaseModel, GraphCase, EXTERNAL_DEFAULT_LOCAL_VARIANTS, MAX_EXTERNAL_MODULES, MAX_NODES,
};
use crate::generate::{
    build_case_from_masks, case_of_masks, dynamic_edge_slots, dynamic_slots, external_edge_slots,
    external_slots, masks_give_well_formed_acyclic_cases, static_edge_slots,
    static_slots,
};
use crate::graph_cycle_checker::is_acyclic;
use vstd::prelude::*;

verus! {

/// The multiplier of the generator.
pub const MULTIPLIER: u64 = 0x2545_F491_4F6C_DD1D;

/// The state that the generator starts from in place of zero.
pub const NONZERO_START: u64 = 0x9E37_79B9_7F4A_7C15;

/// The state that a seed starts the generator in.
pub open spec fn start_state(seed: u64) -> u64 {
    if seed == 0 {
        NONZERO_START
    } else {
        seed
    }
}

/// The state after `state`, which is also what is drawn: three xor-shifts and
/// a multiplication modulo two to the power of 64.
pub open spec fn next_state(state: u64) -> u64 {
    let a = state ^ (state >> 12u64);
    let b = a ^ (a << 25u64);
    let c = b ^ (b >> 27u64);
    c.wrapping_mul(MULTIPLIER)
}

/// The state after `k` draws, and what the last of them gave.
pub open spec fn drawn(state: u64, k: nat) -> u64
    decreases k,
{
    if k == 0 {
        state
    } else {
        next_state(drawn(state, (k - 1) as nat))
    }
}

/// The next `count` draws, each true with the odds `numerator` in `denominator`.
pub open spec fn drawn_flags(
    state: u64,
    count: nat,
    numerator: u64,
    denominator: u64,
) -> Seq<bool> {
    Seq::new(count, |i: int| drawn(state, (i + 1) as nat) % denominator < numerator)
}

/// The next `count` draws, each reduced to a number below `bound`.
pub open spec fn drawn_below(state: u64, count: nat, bound: u64) -> Seq<u8> {
    Seq::new(count, |i: int| (drawn(state, (i + 1) as nat) % bound) as u8)
}

/// How many nodes the first draw asks for: from three to the most there can be.
pub open spec fn nodes_drawn(draw: u64) -> usize {
    (3 + (draw as usize) % ((MAX_NODES - 2) as usize)) as usize
}

/// How many external modules a draw asks for: from one to the most there are.
pub open spec fn externals_drawn(draw: u64) -> usize {
    (1 + (draw as usize) % MAX_EXTERNAL_MODULES) as usize
}

/// The case of a seed. Its draws follow one another: the number of nodes, the
/// four settings, the number of external modules, and then a mask after another.
pub open spec fn case_of_seed(seed: u64) -> CaseModel {
    let start = start_state(seed);
    let n = nodes_drawn(drawn(start, 1));
    let m = externals_drawn(drawn(start, 6));
    let entries_from = drawn(start, 6);
    let cjs_from = drawn(entries_from, n as nat);
    let static_from = drawn(cjs_from, n as nat);
    let static_count = static_slots(n).len();
    let reexports_from = drawn(static_from, static_count);
    let dynamic_from = drawn(reexports_from, static_count);
    let dynamic_count = dynamic_slots(n).len();
    let external_from = drawn(dynamic_from, dynamic_count);
    let external_count = external_slots(n, m).len();
    let defaults_from = drawn(external_from, external_count);
    case_of_masks(
        seed,
        n,
        (drawn(start, 2) % 4) as u8,
        drawn(start, 3) % 2 < 1,
        drawn(start, 4) % 2 < 1,
        drawn(start, 5) % 2 < 1,
        drawn_flags(entries_from, n as nat, 1, 2),
        drawn_flags(cjs_from, n as nat, 1, 3),
        drawn_flags(static_from, static_count, 2, 5),
        drawn_below(dynamic_from, dynamic_count, 3),
        drawn_flags(reexports_from, static_count, 1, 2),
        m,
        drawn_flags(external_from, external_count, 1, 3),
        drawn_below(defaults_from, external_count, (EXTERNAL_DEFAULT_LOCAL_VARIANTS + 1) as u64),
    )
}

proof fn lemma_multiplier_keeps_nonzero(c: u64)
    requires
        c != 0,
    ensures
        c.wrapping_mul(MULTIPLIER) != 0,
{
    // The multiplier is odd, so it has an inverse modulo two to the power of 64.
    let inverse: int = 0x59071d96d81ecd35;
    let range: int = 0x1_0000_0000_0000_0000;
    assert(MULTIPLIER * inverse == 1 + 0xcf65b3f17bf4a6b * range);
    let product = c * MULTIPLIER;
    if product % range == 0 {
        let q = product / range;
        assert(product == q * range) by {
            vstd::arithmetic::div_mod::lemma_fundamental_div_mod(product, range);
            assert(range * q == q * range) by (nonlinear_arith);
        }
        assert(c == (q * inverse - c * 0xcf65b3f17bf4a6b) * range) by (nonlinear_arith)
            requires
                c * MULTIPLIER == q * range,
                MULTIPLIER * inverse == 1 + 0xcf65b3f17bf4a6b * range,
        ;
        let t = q * inverse - c * 0xcf65b3f17bf4a6b;
        assert(false) by (nonlinear_arith)
            requires
                c == t * range,
                0 < c < range,
        ;
    }
}

/// The generator never falls into the zero state, which would repeat forever.
pub proof fn draws_are_never_zero(seed: u64, k: nat)
    ensures
        drawn(start_state(seed), k) != 0,
    decreases k,
{
    if k > 0 {
        let state = drawn(start_state(seed), (k - 1) as nat);
        draws_are_never_zero(seed, (k - 1) as nat);
        let a = state ^ (state >> 12u64);
        let b = a ^ (a << 25u64);
        let c = b ^ (b >> 27u64);
        assert(state != 0 ==> state ^ (state >> 12u64) != 0) by (bit_vector);
        assert(a != 0 ==> a ^ (a << 25u64) != 0) by (bit_vector);
        assert(b != 0 ==> b ^ (b >> 27u64) != 0) by (bit_vector);
        lemma_multiplier_keeps_nonzero(c);
    }
}

/// Every seed gives a well-formed case with an acyclic static graph, with
/// three or more nodes and one or more external modules, up to their limits.
pub proof fn seeds_give_well_formed_acyclic_cases(seed: u64)
    ensures
        case_of_seed(seed).well_formed(),
        is_acyclic(case_of_seed(seed).node_count, case_of_seed(seed).static_edges),
        3 <= case_of_seed(seed).node_count <= MAX_NODES,
        1 <= case_of_seed(seed).external_module_count <= MAX_EXTERNAL_MODULES,
        case_of_seed(seed).seed == seed,
{
    let start = start_state(seed);
    let n = nodes_drawn(drawn(start, 1));
    let m = externals_drawn(drawn(start, 6));
    let entries_from = drawn(start, 6);
    let cjs_from = drawn(entries_from, n as nat);
    let static_from = drawn(cjs_from, n as nat);
    let static_count = static_slots(n).len();
    let reexports_from = drawn(static_from, static_count);
    let dynamic_from = drawn(reexports_from, static_count);
    let dynamic_count = dynamic_slots(n).len();
    let external_from = drawn(dynamic_from, dynamic_count);
    let external_count = external_slots(n, m).len();
    let defaults_from = drawn(external_from, external_count);
    masks_give_well_formed_acyclic_cases(
        seed,
        n,
        (drawn(start, 2) % 4) as u8,
        drawn(start, 3) % 2 < 1,
        drawn(start, 4) % 2 < 1,
        drawn(start, 5) % 2 < 1,
        drawn_flags(entries_from, n as nat, 1, 2),
        drawn_flags(cjs_from, n as nat, 1, 3),
        drawn_flags(static_from, static_count, 2, 5),
        drawn_below(dynamic_from, dynamic_count, 3),
        drawn_flags(reexports_from, static_count, 1, 2),
        m,
        drawn_flags(external_from, external_count, 1, 3),
        drawn_below(defaults_from, external_count, (EXTERNAL_DEFAULT_LOCAL_VARIANTS + 1) as u64),
    );
}

/// A small generator of numbers, fixed by its seed.
pub struct SeedRng {
    pub state: u64,
}

impl SeedRng {
    pub fn new(seed: u64) -> (rng: Self)
        ensures
            rng.state == start_state(seed),
    {
        let state = if seed == 0 {
            NONZERO_START
        } else {
            seed
        };
        SeedRng { state }
    }

    pub fn next_u64(&mut self) -> (draw: u64)
        ensures
            final(self).state == next_state(old(self).state),
            draw == final(self).state,
    {
        self.state = self.state ^ (self.state >> 12u64);
        self.state = self.state ^ (self.state << 25u64);
        self.state = self.state ^ (self.state >> 27u64);
        self.state = self.state.wrapping_mul(MULTIPLIER);
        self.state
    }

    /// True with the odds `numerator` in `denominator`.
    pub fn next_bool(&mut self, numerator: u64, denominator: u64) -> (draw: bool)
        requires
            denominator > 0,
        ensures
            final(self).state == next_state(old(self).state),
            draw == (final(self).state % denominator < numerator),
    {
        self.next_u64() % denominator < numerator
    }

    fn next_flags(&mut self, count: usize, numerator: u64, denominator: u64) -> (flags: Vec<bool>)
        requires
            denominator > 0,
        ensures
            flags@ == drawn_flags(old(self).state, count as nat, numerator, denominator),
            final(self).state == drawn(old(self).state, count as nat),
    {
        let ghost start = self.state;
        let mut flags: Vec<bool> = Vec::new();
        for i in 0..count
            invariant
                denominator > 0,
                self.state == drawn(start, i as nat),
                flags@ == drawn_flags(start, i as nat, numerator, denominator),
        {
            flags.push(self.next_bool(numerator, denominator));
        }
        flags
    }

    fn next_numbers(&mut self, count: usize, bound: u64) -> (numbers: Vec<u8>)
        requires
            0 < bound <= 256,
        ensures
            numbers@ == drawn_below(old(self).state, count as nat, bound),
            final(self).state == drawn(old(self).state, count as nat),
    {
        let ghost start = self.state;
        let mut numbers: Vec<u8> = Vec::new();
        for i in 0..count
            invariant
                0 < bound <= 256,
                self.state == drawn(start, i as nat),
                numbers@ == drawn_below(start, i as nat, bound),
        {
            numbers.push((self.next_u64() % bound) as u8);
        }
        numbers
    }
}

/// Draws a case from a seed. The same seed always gives the same case.
pub fn case_from_seed(seed: u64) -> (case: GraphCase)
    ensures
        case@ == case_of_seed(seed),
        ({
            let first = next_state(start_state(seed));
            let second = next_state(first);
            let third = next_state(second);
            let fourth = next_state(third);
            let fifth = next_state(fourth);
            let sixth = next_state(fifth);
            &&& case.seed == seed
            &&& case.node_count == 3 + (first as usize) % ((MAX_NODES - 2) as usize)
            &&& case.preserve_entry_signatures == signatures_at((second % 4) as int)
            &&& case.strict_execution_order == (third % 2 == 0)
            &&& case.treeshake == (fourth % 2 == 0)
            &&& case.minify_internal_exports == (fifth % 2 == 0)
            &&& case.external_module_count == 1 + (sixth as usize) % MAX_EXTERNAL_MODULES
        }),
{
    let mut rng = SeedRng::new(seed);
    let ghost start = rng.state;
    proof {
        reveal_with_fuel(drawn, 7);
    }
    let node_count: usize = 3 + (rng.next_u64() as usize % (MAX_NODES - 2));
    let preserve_entry_signatures_index: u8 = (rng.next_u64() % 4) as u8;
    let strict_execution_order = rng.next_bool(1, 2);
    let treeshake = rng.next_bool(1, 2);
    let minify_internal_exports = rng.next_bool(1, 2);
    let external_module_count: usize = 1 + rng.next_u64() as usize % MAX_EXTERNAL_MODULES;
    assert(rng.state == drawn(start, 6));
    assert(node_count == nodes_drawn(drawn(start, 1)));
    assert(external_module_count == externals_drawn(drawn(start, 6)));

    let entry_mask = rng.next_flags(node_count, 1, 2);
    let cjs_mask = rng.next_flags(node_count, 1, 3);

    assert(node_count * (node_count - 1) <= 12 * 11) by (nonlinear_arith)
        requires
            1 <= node_count <= 12,
    ;
    assert(node_count * external_module_count <= 12 * 4) by (nonlinear_arith)
        requires
            node_count <= 12,
            external_module_count <= 4,
    ;
    let static_count: usize = static_edge_slots(node_count);
    let static_mask = rng.next_flags(static_count, 2, 5);
    let reexport_mask = rng.next_flags(static_count, 1, 2);

    let dynamic_count: usize = dynamic_edge_slots(node_count);
    let dynamic_mask = rng.next_numbers(dynamic_count, 3);

    let external_count: usize = external_edge_slots(node_count, external_module_count);
    let external_dynamic_mask = rng.next_flags(external_count, 1, 3);
    let external_static_default_mask = rng.next_numbers(
        external_count,
        (EXTERNAL_DEFAULT_LOCAL_VARIANTS + 1) as u64,
    );

    build_case_from_masks(
        seed,
        node_count,
        preserve_entry_signatures_index,
        strict_execution_order,
        treeshake,
        minify_internal_exports,
        entry_mask.as_slice(),
        cjs_mask.as_slice(),
        static_mask.as_slice(),
        dynamic_mask.as_slice(),
        reexport_mask.as_slice(),
        external_module_count,
        external_dynamic_mask.as_slice(),
        external_static_default_mask.as_slice(),
    )
}

} // verus!
