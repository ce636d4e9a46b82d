//! Shape and limits of a network.
use crate::scalar::Scalar;
use vstd::arithmetic::{div_mod, mul, power2};
use vstd::prelude::*;

verus! {

/// How a node normalises what it passes on.
#[derive(Clone, Copy, Debug, PartialEq, Eq, Structural)]
pub enum NormStrategy {
    /// Division by the root mean square.
    MicroRMSNorm,
    /// Projection onto a sphere.
    SphereNormalization,
}

/// Configuration of micro-block nodes and of the mesh that joins them.
#[derive(Clone, Copy, Debug, PartialEq, Eq, Structural)]
pub struct MicroBlockConfig {
    /// Number of shards that a token is split into.
    pub num_shards: usize,
    /// Rows of the mesh.
    pub mesh_rows: usize,
    /// Columns of the mesh.
    pub mesh_cols: usize,
    /// Length of one particle's payload.
    pub d_head: usize,
    /// Width of the intermediate layer, in multiples of `d_head`.
    pub ffn_expansion: usize,
    /// Energy of a newly scattered particle.
    pub initial_energy: Scalar,
    /// Ceiling on the hops of a particle.
    pub max_hop: u16,
    /// Hops before a particle may settle on its own.
    pub min_hop: u16,
    /// Ceiling on the subnodes of a node.
    pub subnode_max: usize,
    /// Activations that a node needs to grow for the first time.
    pub neurogenesis_threshold: u64,
    /// By how much of it that number rises with each growth.
    pub progressive_hardening_factor: Scalar,
    /// Weight decay of the optimiser.
    pub weight_decay: Scalar,
    /// Share of the nodes that take in scattered particles.
    pub ingress_ratio: Scalar,
    /// Neighbors of a node.
    pub k_neighbors: usize,
    /// Health of a newborn subnode.
    pub health_base: Scalar,
    /// Length above which a queue sends particles elsewhere.
    pub queue_backpressure: usize,
    /// Routing steps allowed beyond `max_hop`.
    pub step_safety_margin: usize,
    /// How a node normalises what it passes on.
    pub norm_strategy: NormStrategy,
}

impl MicroBlockConfig {
    /// Number of nodes in the mesh.
    pub fn num_nodes(&self) -> (r: usize)
        requires
            self.mesh_rows * self.mesh_cols <= usize::MAX,
        ensures
            r == self.mesh_rows * self.mesh_cols,
    {
        self.mesh_rows * self.mesh_cols
    }

    /// Length of a token's embedding.
    pub fn d_model(&self) -> (r: usize)
        requires
            self.num_shards * self.d_head <= usize::MAX,
        ensures
            r == self.num_shards * self.d_head,
    {
        self.num_shards * self.d_head
    }

    /// Activations that a node needs to grow when it has grown `split_count` times.
    pub fn current_neurogenesis_threshold(&self, split_count: u32) -> (r: u64)
        requires
            self.progressive_hardening_factor.bits < 0x7f80_0000,
        ensures
            r == risen_threshold(
                self.neurogenesis_threshold as int,
                split_count as int,
                self.progressive_hardening_factor,
            ),
    {
        let bits: u32 = self.progressive_hardening_factor.bits;
        let fraction: u32 = bits % 0x80_0000;
        let exponent: u32 = bits / 0x80_0000;
        let digits: u32 = if exponent == 0 {
            fraction
        } else {
            0x80_0000 + fraction
        };
        let places: u32 = if exponent == 0 {
            0
        } else {
            exponent - 1
        };
        let base: u64 = self.neurogenesis_threshold;
        assert(base * split_count <= 0xffff_ffff_ffff_ffff * 0xffff_ffff) by (nonlinear_arith)
            requires
                base <= 0xffff_ffff_ffff_ffff,
                split_count <= 0xffff_ffff,
        ;
        let growths: u128 = base as u128 * split_count as u128;
        assert(growths * digits <= 0xffff_ffff_ffff_ffff * 0xffff_ffff * 0xff_ffff)
            by (nonlinear_arith)
            requires
                growths <= 0xffff_ffff_ffff_ffff * 0xffff_ffff,
                digits <= 0xff_ffff,
        ;
        let product: u128 = growths * digits as u128;
        proof {
            power2::lemma2_to64();
            lemma_rise(
                growths as int,
                digits as int,
                places as nat,
                self.progressive_hardening_factor,
            );
        }
        let rise: u128 = if places <= 149 {
            halved_often(product, 149 - places)
        } else {
            doubled_often(product, places - 149)
        };
        let total: u128 = base as u128 + rise;
        if total > u64::MAX as u128 {
            u64::MAX
        } else {
            total as u64
        }
    }
}

/// A number of activations that rises by `factor` of itself with each of `split_count`
/// growths, in whole numbers and at most the largest one.
pub open spec fn risen_threshold(base: int, split_count: int, factor: Scalar) -> int {
    let risen = base + base * split_count * factor.units() / (power2::pow2(149) as int);
    if risen > u64::MAX {
        u64::MAX as int
    } else {
        risen
    }
}

/// A number halved `times` times over, rounded down.
fn halved_often(n: u128, times: u32) -> (r: u128)
    ensures
        r == n as int / (power2::pow2(times as nat) as int),
        r <= n,
{
    let mut r: u128 = n;
    let mut i: u32 = 0;
    proof {
        power2::lemma2_to64();
    }
    while i < times
        invariant
            i <= times,
            r == n as int / (power2::pow2(i as nat) as int),
            r <= n,
        decreases times - i,
    {
        proof {
            power2::lemma_pow2_pos(i as nat);
            power2::lemma_pow2_unfold((i + 1) as nat);
            div_mod::lemma_div_denominator(n as int, power2::pow2(i as nat) as int, 2);
        }
        r = r / 2;
        i += 1;
    }
    r
}

/// A number doubled `times` times over, at most 2^64.
fn doubled_often(n: u128, times: u32) -> (r: u128)
    ensures
        r == if n * power2::pow2(times as nat) > 0x1_0000_0000_0000_0000 {
            0x1_0000_0000_0000_0000
        } else {
            n * power2::pow2(times as nat)
        },
{
    let mut r: u128 = if n > 0x1_0000_0000_0000_0000 {
        0x1_0000_0000_0000_0000
    } else {
        n
    };
    let mut i: u32 = 0;
    proof {
        power2::lemma2_to64();
    }
    while i < times
        invariant
            i <= times,
            r == if n * power2::pow2(i as nat) > 0x1_0000_0000_0000_0000 {
                0x1_0000_0000_0000_0000
            } else {
                n * power2::pow2(i as nat)
            },
        decreases times - i,
    {
        proof {
            power2::lemma_pow2_unfold((i + 1) as nat);
            mul::lemma_mul_is_associative(n as int, 2, power2::pow2(i as nat) as int);
            mul::lemma_mul_is_associative(2, n as int, power2::pow2(i as nat) as int);
        }
        r = if r > 0x8000_0000_0000_0000 {
            0x1_0000_0000_0000_0000
        } else {
            r * 2
        };
        i += 1;
    }
    r
}

/// The share that a factor is of a whole number, from its digits and their places.
proof fn lemma_rise(growths: int, digits: int, places: nat, factor: Scalar)
    requires
        growths >= 0,
        digits >= 0,
        factor.units() == digits * power2::pow2(places),
    ensures
        growths * factor.units() / (power2::pow2(149) as int) == if places <= 149 {
            growths * digits / (power2::pow2((149 - places) as nat) as int)
        } else {
            growths * digits * power2::pow2((places - 149) as nat)
        },
{
    let product = growths * digits;
    let scale = power2::pow2(places) as int;
    mul::lemma_mul_is_associative(growths, digits, scale);
    power2::lemma_pow2_pos(places);
    power2::lemma_pow2_pos(149);
    if places <= 149 {
        let rest = power2::pow2((149 - places) as nat) as int;
        power2::lemma_pow2_pos((149 - places) as nat);
        power2::lemma_pow2_adds(places, (149 - places) as nat);
        assert(product * scale >= 0) by (nonlinear_arith)
            requires
                product == growths * digits,
                growths >= 0,
                digits >= 0,
                scale > 0,
        ;
        div_mod::lemma_div_denominator(product * scale, scale, rest);
        div_mod::lemma_div_by_multiple(product, scale);
    } else {
        let rest = power2::pow2((places - 149) as nat) as int;
        power2::lemma_pow2_adds((places - 149) as nat, 149);
        mul::lemma_mul_is_associative(product, rest, power2::pow2(149) as int);
        div_mod::lemma_div_by_multiple(product * rest, power2::pow2(149) as int);
    }
}

/// A node that has never grown needs the first threshold, and with each growth it needs no
/// less than before.
pub proof fn law_thresholds_rise(base: int, fewer: int, more: int, factor: Scalar)
    requires
        0 <= base <= u64::MAX,
        0 <= fewer <= more,
        factor.bits < 0x7f80_0000,
    ensures
        risen_threshold(base, 0, factor) == base,
        base <= risen_threshold(base, fewer, factor) <= risen_threshold(base, more, factor),
{
    let units = factor.units();
    let whole = power2::pow2(149) as int;
    power2::lemma_pow2_pos(149);
    crate::scalar::lemma_units_sign(factor);
    div_mod::lemma_basic_div(0, whole);
    assert(base * 0 * units == 0) by (nonlinear_arith);
    assert(0 <= base * fewer * units <= base * more * units) by (nonlinear_arith)
        requires
            base >= 0,
            0 <= fewer <= more,
            units >= 0,
    ;
    div_mod::lemma_div_is_ordered(0, base * fewer * units, whole);
    div_mod::lemma_div_is_ordered(base * fewer * units, base * more * units, whole);
}

/// The configuration that stands where none is given.
pub open spec fn default_config() -> MicroBlockConfig {
    MicroBlockConfig {
        num_shards: 4,
        mesh_rows: 10,
        mesh_cols: 10,
        d_head: 64,
        ffn_expansion: 8,
        initial_energy: Scalar { bits: 0x3f80_0000 },  // 1.0
        max_hop: 200,
        min_hop: 10,
        subnode_max: 8,
        neurogenesis_threshold: 50,
        progressive_hardening_factor: Scalar { bits: 0x3f00_0000 },  // 0.5
        weight_decay: Scalar { bits: 0x38d1_b717 },  // 1e-4
        ingress_ratio: Scalar { bits: 0x3dcc_cccd },  // 0.1
        k_neighbors: 4,
        health_base: Scalar { bits: 0x3f80_0000 },  // 1.0
        queue_backpressure: 64,
        step_safety_margin: 20,
        norm_strategy: NormStrategy::MicroRMSNorm,
    }
}

impl Default for MicroBlockConfig {
    fn default() -> (r: Self)
        ensures
            r == default_config(),
    {
        MicroBlockConfig {
            num_shards: 4,
            mesh_rows: 10,
            mesh_cols: 10,
            d_head: 64,
            ffn_expansion: 8,
            initial_energy: Scalar { bits: 0x3f80_0000 },
            max_hop: 200,
            min_hop: 10,
            subnode_max: 8,
            neurogenesis_threshold: 50,
            progressive_hardening_factor: Scalar { bits: 0x3f00_0000 },
            weight_decay: Scalar { bits: 0x38d1_b717 },
            ingress_ratio: Scalar { bits: 0x3dcc_cccd },
            k_neighbors: 4,
            health_base: Scalar { bits: 0x3f80_0000 },
            queue_backpressure: 64,
            step_safety_margin: 20,
            norm_strategy: NormStrategy::MicroRMSNorm,
        }
    }
}

/// A factor of one adds the first threshold again with each growth, and a factor of a half
/// adds half of it, rounded down, as far as numbers reach.
pub proof fn law_thresholds_rise_by_their_factor(base: int, split_count: int)
    requires
        0 <= base,
        0 <= split_count,
    ensures
        base + base * split_count <= u64::MAX ==> risen_threshold(base, split_count, Scalar::one())
            == base + base * split_count,
        base + base * split_count / 2 <= u64::MAX ==> risen_threshold(
            base,
            split_count,
            Scalar::half(),
        ) == base + base * split_count / 2,
        risen_threshold(base, split_count, Scalar::one()) <= u64::MAX,
        base + base * split_count > u64::MAX ==> risen_threshold(base, split_count, Scalar::one())
            == u64::MAX,
{
    let whole = power2::pow2(149) as int;
    let part = power2::pow2(148) as int;
    let n = base * split_count;
    power2::lemma_pow2_pos(148);
    power2::lemma_pow2_pos(149);
    power2::lemma_pow2_unfold(149);
    crate::scalar::law_named_values();
    assert(Scalar::one().units() == whole && Scalar::half().units() == part && whole == 2 * part);
    div_mod::lemma_div_by_multiple(n, whole);
    assert(n >= 0) by (nonlinear_arith)
        requires
            n == base * split_count,
            base >= 0,
            split_count >= 0,
    ;
    assert(n * part >= 0) by (nonlinear_arith)
        requires
            n >= 0,
            part > 0,
    ;
    div_mod::lemma_div_by_multiple(n, part);
    div_mod::lemma_div_denominator(n * part, part, 2);
    assert(part * 2 == whole);
}


/// Without a configuration there are four shards of 64 values, a mesh of ten times ten nodes with
/// four neighbors each, and layers eight times as wide as a payload. A particle starts with an
/// energy of one, makes at least ten hops and at most two hundred, and is routed for twenty
/// steps more; a queue holds 64 before it sends particles elsewhere. A node has at most eight
/// subnodes, grows first after fifty activations, and after half as many more with each growth.
pub proof fn law_the_default_network()
    ensures
        ({
            let d = default_config();
            &&& d.num_shards * d.d_head == 256 && d.d_head == 64
            &&& d.mesh_rows * d.mesh_cols == 100 && d.mesh_rows == d.mesh_cols
            &&& d.k_neighbors == 4
            &&& d.ffn_expansion == 8
            &&& d.initial_energy.units() == Scalar::one().units()
            &&& d.health_base.units() == Scalar::one().units()
            &&& d.min_hop == 10
            &&& d.max_hop == 20 * d.min_hop
            &&& d.step_safety_margin == 20
            &&& d.queue_backpressure == 64
            &&& d.subnode_max == 8
            &&& risen_threshold(
                d.neurogenesis_threshold as int,
                0,
                d.progressive_hardening_factor,
            ) == 50
            &&& risen_threshold(
                d.neurogenesis_threshold as int,
                1,
                d.progressive_hardening_factor,
            ) == 75
            &&& d.weight_decay.bits == 0x38d1_b717
            &&& d.ingress_ratio.bits == 0x3dcc_cccd
            &&& d.norm_strategy is MicroRMSNorm
        }),
{
    let d = default_config();
    law_thresholds_rise(50, 0, 0, d.progressive_hardening_factor);
    law_thresholds_rise_by_their_factor(50, 1);
    assert(d.progressive_hardening_factor == Scalar::half());
    assert(d.mesh_rows * d.mesh_cols == 100) by (nonlinear_arith)
        requires
            d.mesh_rows == 10,
            d.mesh_cols == 10,
    ;
}

} // verus!
