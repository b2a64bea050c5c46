//! Genomes: traits, nodes and genes, with compatibility, mutation, cloning and
//! integrity checks.
pub mod gene;
pub mod gene_trait;

use crate::genome::gene::Gene;
use crate::genome::gene_trait::Trait;
use crate::env::Env;
use crate::Mutator;
use crate::fixed::{abs, clamp_weight, COEFF_LIMIT, GENE_LIMIT, SCALE, WEIGHT_CAP};
use crate::link::Link;
use crate::node::Node;
use vstd::prelude::*;

verus! {

/// A genome: its traits, its nodes (ordered by id) and its genes (ordered by
/// innovation number). Nodes and genes name traits and nodes by id.
pub struct Genome {
    pub id: i32,
    pub traits: Vec<Trait>,
    pub nodes: Vec<Node>,
    pub genes: Vec<Gene>,
}

} // verus!

verus! {

/// Tallies of the merge of two gene lists sorted by innovation number:
/// `(disjoint, excess, summed |mutation difference| of matches, matches)`.
/// Genes whose innovation number is met in only one list count as disjoint while
/// both lists have genes left, and as excess once one list is exhausted.
pub open spec fn merge_counts(a: Seq<Gene>, b: Seq<Gene>) -> (int, int, int, int)
    decreases a.len() + b.len(),
{
    if a.len() == 0 {
        (0, b.len() as int, 0, 0)
    } else if b.len() == 0 {
        (0, a.len() as int, 0, 0)
    } else if a[0].innovation_num == b[0].innovation_num {
        let r = merge_counts(a.drop_first(), b.drop_first());
        (r.0, r.1, r.2 + abs(a[0].mutation_num - b[0].mutation_num), r.3 + 1)
    } else if a[0].innovation_num < b[0].innovation_num {
        let r = merge_counts(a.drop_first(), b);
        (r.0 + 1, r.1, r.2, r.3)
    } else {
        let r = merge_counts(a, b.drop_first());
        (r.0 + 1, r.1, r.2, r.3)
    }
}

/// The compatibility distance, in millionths, for the tallies `c` of a merge:
/// `disjoint_coeff * disjoint + excess_coeff * excess + mutdiff_coeff * mean mutation
/// difference`, where the last term is zero when no genes match.
pub open spec fn compat_value(c: (int, int, int, int), env: Env) -> int {
    env.disjoint_coeff * c.0 + env.excess_coeff * c.1 + if c.3 == 0 {
        0
    } else {
        env.mutdiff_coeff * (c.2 / c.3) / SCALE as int
    }
}

/// The compatibility distance between two gene lists.
pub open spec fn compatibility_spec(a: Seq<Gene>, b: Seq<Gene>, env: Env) -> int {
    compat_value(merge_counts(a, b), env)
}

/// Every step of the merge consumes one gene per disjoint or excess gene and two per
/// match; the summed difference is at most `2^64` per match.
pub proof fn lemma_merge_counts_bounds(a: Seq<Gene>, b: Seq<Gene>)
    ensures
        ({
            let r = merge_counts(a, b);
            &&& r.0 >= 0 && r.1 >= 0 && r.3 >= 0
            &&& r.0 + r.1 + 2 * r.3 == a.len() + b.len()
            &&& 0 <= r.2 <= r.3 * 0x1_0000_0000_0000_0000
        }),
    decreases a.len() + b.len(),
{
    if a.len() == 0 || b.len() == 0 {
    } else if a[0].innovation_num == b[0].innovation_num {
        lemma_merge_counts_bounds(a.drop_first(), b.drop_first());
    } else if a[0].innovation_num < b[0].innovation_num {
        lemma_merge_counts_bounds(a.drop_first(), b);
    } else {
        lemma_merge_counts_bounds(a, b.drop_first());
    }
}

impl Genome {
    pub fn new(id: i32) -> (r: Self)
        ensures
            r.id == id,
            r.traits@.len() == 0,
            r.nodes@.len() == 0,
            r.genes@.len() == 0,
    {
        Genome { id, traits: Vec::new(), nodes: Vec::new(), genes: Vec::new() }
    }

    pub fn add_trait(&mut self, gene_trait: Trait)
        ensures
            final(self).traits@ == old(self).traits@.push(gene_trait),
            final(self).nodes@ == old(self).nodes@,
            final(self).genes@ == old(self).genes@,
            final(self).id == old(self).id,
    {
        self.traits.push(gene_trait)
    }

    pub fn add_node(&mut self, node: Node)
        ensures
            final(self).nodes@ == old(self).nodes@.push(node),
            final(self).traits@ == old(self).traits@,
            final(self).genes@ == old(self).genes@,
            final(self).id == old(self).id,
    {
        self.nodes.push(node)
    }

    pub fn add_gene(&mut self, gene: Gene)
        ensures
            final(self).genes@ == old(self).genes@.push(gene),
            final(self).traits@ == old(self).traits@,
            final(self).nodes@ == old(self).nodes@,
            final(self).id == old(self).id,
    {
        self.genes.push(gene)
    }

    pub fn get_last_node_id(&self) -> (r: Option<i32>)
        ensures
            self.nodes@.len() == 0 ==> r.is_none(),
            self.nodes@.len() > 0 ==> r == Some(self.nodes@.last().id),
    {
        if self.nodes.len() == 0 {
            None
        } else {
            Some(self.nodes[self.nodes.len() - 1].id)
        }
    }

    pub fn get_last_gene_innovnum(&self) -> (r: Option<u64>)
        ensures
            self.genes@.len() == 0 ==> r.is_none(),
            self.genes@.len() > 0 ==> r == Some(self.genes@.last().innovation_num),
    {
        if self.genes.len() == 0 {
            None
        } else {
            Some(self.genes[self.genes.len() - 1].innovation_num)
        }
    }

    /// The compatibility distance to `other`, in millionths (see `compat_value`).
    pub fn compatibility(&self, other: &Genome, env: &Env) -> (r: i128)
        requires
            self.genes@.len() <= GENE_LIMIT,
            other.genes@.len() <= GENE_LIMIT,
            env.compat_coeffs_valid(),
        ensures
            r == compatibility_spec(self.genes@, other.genes@, *env),
    {
        let a = &self.genes;
        let b = &other.genes;
        let mut num_disjoint: u64 = 0;
        let mut num_excess: u64 = 0;
        let mut mut_diff_total: u128 = 0;
        let mut num_matching: u64 = 0;
        let mut i: usize = 0;
        let mut j: usize = 0;
        proof {
            lemma_merge_counts_bounds(a@, b@);
            assert(a@.subrange(0, a@.len() as int) == a@);
            assert(b@.subrange(0, b@.len() as int) == b@);
        }
        while i < a.len() || j < b.len()
            invariant
                i <= a@.len(),
                j <= b@.len(),
                a@.len() <= GENE_LIMIT,
                b@.len() <= GENE_LIMIT,
                num_disjoint + num_excess + 2 * num_matching == i + j,
                mut_diff_total <= num_matching * 0x1_0000_0000_0000_0000,
                ({
                    let rest = merge_counts(a@.subrange(i as int, a@.len() as int), b@.subrange(j as int, b@.len() as int));
                    let all = merge_counts(a@, b@);
                    &&& all.0 == num_disjoint + rest.0
                    &&& all.1 == num_excess + rest.1
                    &&& all.2 == mut_diff_total + rest.2
                    &&& all.3 == num_matching + rest.3
                }),
            decreases a@.len() + b@.len() - i - j,
        {
            let ghost ra = a@.subrange(i as int, a@.len() as int);
            let ghost rb = b@.subrange(j as int, b@.len() as int);
            if i == a.len() {
                proof {
                    assert(rb.drop_first() == b@.subrange(j + 1, b@.len() as int));
                }
                j = j + 1;
                num_excess = num_excess + 1;
            } else if j == b.len() {
                proof {
                    assert(ra.drop_first() == a@.subrange(i + 1, a@.len() as int));
                }
                i = i + 1;
                num_excess = num_excess + 1;
            } else {
                proof {
                    assert(ra.drop_first() == a@.subrange(i + 1, a@.len() as int));
                    assert(rb.drop_first() == b@.subrange(j + 1, b@.len() as int));
                }
                let p1innov = a[i].innovation_num;
                let p2innov = b[j].innovation_num;
                if p1innov == p2innov {
                    let x = a[i].mutation_num as i128;
                    let y = b[j].mutation_num as i128;
                    let diff: u128 = if x < y {
                        (y - x) as u128
                    } else {
                        (x - y) as u128
                    };
                    mut_diff_total = mut_diff_total + diff;
                    i = i + 1;
                    j = j + 1;
                    num_matching = num_matching + 1;
                } else if p1innov < p2innov {
                    i = i + 1;
                    num_disjoint = num_disjoint + 1;
                } else {
                    j = j + 1;
                    num_disjoint = num_disjoint + 1;
                }
            }
        }
        proof {
            let ra = a@.subrange(i as int, a@.len() as int);
            let rb = b@.subrange(j as int, b@.len() as int);
            assert(ra.len() == 0 && rb.len() == 0);
        }
        let mutdiff_term: i128 = if num_matching == 0 {
            0
        } else {
            let mean = mut_diff_total / (num_matching as u128);
            assert(mean <= 0x1_0000_0000_0000_0000) by {
                assert(mut_diff_total / (num_matching as u128) <= 0x1_0000_0000_0000_0000) by (nonlinear_arith)
                    requires
                        mut_diff_total <= num_matching * 0x1_0000_0000_0000_0000,
                        num_matching > 0,
                ;
            }
            assert(env.mutdiff_coeff * mean <= COEFF_LIMIT * 0x1_0000_0000_0000_0000) by (nonlinear_arith)
                requires
                    0 <= env.mutdiff_coeff <= COEFF_LIMIT,
                    mean <= 0x1_0000_0000_0000_0000,
            ;
            (env.mutdiff_coeff as i128) * (mean as i128) / (SCALE as i128)
        };
        assert(env.disjoint_coeff * num_disjoint <= COEFF_LIMIT * 2 * GENE_LIMIT) by (nonlinear_arith)
            requires
                0 <= env.disjoint_coeff <= COEFF_LIMIT,
                num_disjoint <= 2 * GENE_LIMIT,
        ;
        assert(env.excess_coeff * num_excess <= COEFF_LIMIT * 2 * GENE_LIMIT) by (nonlinear_arith)
            requires
                0 <= env.excess_coeff <= COEFF_LIMIT,
                num_excess <= 2 * GENE_LIMIT,
        ;
        (env.disjoint_coeff as i128) * (num_disjoint as i128) + (env.excess_coeff as i128) * (
        num_excess as i128) + mutdiff_term
    }
}

} // verus!

verus! {

/// Merging a gene list with itself matches every gene and finds nothing else.
pub proof fn lemma_merge_counts_self(a: Seq<Gene>)
    ensures
        merge_counts(a, a) == (0int, 0int, 0int, a.len() as int),
    decreases a.len(),
{
    if a.len() > 0 {
        lemma_merge_counts_self(a.drop_first());
    }
}

/// A genome is at distance zero from itself.
pub proof fn lemma_compatibility_self_zero(a: Genome, env: Env)
    requires
        env.compat_coeffs_valid(),
    ensures
        compatibility_spec(a.genes@, a.genes@, env) == 0,
{
    lemma_merge_counts_self(a.genes@);
    let n = a.genes@.len() as int;
    if n > 0 {
        assert(0int / n == 0);
        assert(env.mutdiff_coeff * 0int == 0);
        assert(0int / (SCALE as int) == 0);
    }
}

/// No innovation number occurs in both lists.
pub open spec fn no_shared_innovations(a: Seq<Gene>, b: Seq<Gene>) -> bool {
    forall|i: int, j: int|
        0 <= i < a.len() && 0 <= j < b.len() ==> a[i].innovation_num != b[j].innovation_num
}

/// Lists sharing no innovation number have no matches.
pub proof fn lemma_merge_counts_disjoint(a: Seq<Gene>, b: Seq<Gene>)
    requires
        no_shared_innovations(a, b),
    ensures
        merge_counts(a, b).3 == 0,
        merge_counts(a, b).2 == 0,
        a.len() > 0 && b.len() > 0 ==> merge_counts(a, b).0 > 0,
    decreases a.len() + b.len(),
{
    if a.len() == 0 || b.len() == 0 {
    } else {
        assert(a[0].innovation_num != b[0].innovation_num);
        if a[0].innovation_num < b[0].innovation_num {
            assert(no_shared_innovations(a.drop_first(), b)) by {
                assert forall|i: int, j: int|
                    0 <= i < a.drop_first().len() && 0 <= j < b.len() implies a.drop_first()[i].innovation_num
                        != b[j].innovation_num by {
                    assert(a.drop_first()[i] == a[i + 1]);
                }
            }
            lemma_merge_counts_disjoint(a.drop_first(), b);
        } else {
            assert(no_shared_innovations(a, b.drop_first())) by {
                assert forall|i: int, j: int|
                    0 <= i < a.len() && 0 <= j < b.drop_first().len() implies a[i].innovation_num
                        != b.drop_first()[j].innovation_num by {
                    assert(b.drop_first()[j] == b[j + 1]);
                }
            }
            lemma_merge_counts_disjoint(a, b.drop_first());
        }
    }
}

/// Two genomes sharing no innovation number are at distance
/// `excess_coeff * (|A.genes| + |B.genes|)`, provided one of them has no genes or
/// disjoint and excess genes weigh the same: when both have genes, the merge counts
/// at least one gene as disjoint.
pub proof fn lemma_compatibility_no_shared(a: Genome, b: Genome, env: Env)
    requires
        env.compat_coeffs_valid(),
        no_shared_innovations(a.genes@, b.genes@),
        a.genes@.len() == 0 || b.genes@.len() == 0 || env.disjoint_coeff == env.excess_coeff,
    ensures
        compatibility_spec(a.genes@, b.genes@, env) == env.excess_coeff * (a.genes@.len()
            + b.genes@.len()),
{
    lemma_merge_counts_disjoint(a.genes@, b.genes@);
    lemma_merge_counts_bounds(a.genes@, b.genes@);
    let c = merge_counts(a.genes@, b.genes@);
    if a.genes@.len() == 0 || b.genes@.len() == 0 {
        assert(c.0 == 0);
    }
    assert(env.disjoint_coeff * c.0 + env.excess_coeff * c.1 == env.excess_coeff * (c.0 + c.1))
        by (nonlinear_arith)
        requires
            c.0 == 0 || env.disjoint_coeff == env.excess_coeff,
    ;
}

} // verus!

verus! {

/// A structural fault `Genome::verify` reports.
#[derive(Debug, Clone, Copy, PartialEq, Eq, Structural)]
pub enum GenomeError {
    /// The gene with this innovation number starts at a node missing from the node list.
    MissingInputNode(u64),
    /// The gene with this innovation number ends at a node missing from the node list.
    MissingOutputNode(u64),
    /// Some node has a smaller id than the node before it.
    NodesOutOfOrder,
    /// Two distinct genes are equal.
    DuplicateGenes,
}

/// Some node has id `id`.
pub open spec fn has_node(nodes: Seq<Node>, id: i32) -> bool {
    exists|k: int| 0 <= k < nodes.len() && nodes[k].id == id
}

/// The first gene, in list order, with an endpoint missing from `nodes`, as the fault
/// to report; the input node is checked before the output node.
pub open spec fn first_endpoint_fault(genes: Seq<Gene>, nodes: Seq<Node>) -> Option<GenomeError>
    decreases genes.len(),
{
    if genes.len() == 0 {
        None
    } else if !has_node(nodes, genes[0].link.i_node) {
        Some(GenomeError::MissingInputNode(genes[0].innovation_num))
    } else if !has_node(nodes, genes[0].link.o_node) {
        Some(GenomeError::MissingOutputNode(genes[0].innovation_num))
    } else {
        first_endpoint_fault(genes.drop_first(), nodes)
    }
}

/// Node ids never decrease along the list.
pub open spec fn nodes_in_order(nodes: Seq<Node>) -> bool {
    forall|k: int| 0 < k < nodes.len() ==> nodes[k - 1].id <= #[trigger] nodes[k].id
}

/// Two genes at distinct positions are equal.
pub open spec fn has_duplicate_genes(genes: Seq<Gene>) -> bool {
    exists|i: int, j: int|
        0 <= i < genes.len() && 0 <= j < genes.len() && i != j && genes[i].same_as(genes[j])
}

/// The outcome of the integrity check: the first fault found, checking endpoints,
/// then node order, then duplicates.
pub open spec fn verify_spec(g: Genome) -> Result<(), GenomeError> {
    match first_endpoint_fault(g.genes@, g.nodes@) {
        Some(e) => Err(e),
        None => if !nodes_in_order(g.nodes@) {
            Err(GenomeError::NodesOutOfOrder)
        } else if has_duplicate_genes(g.genes@) {
            Err(GenomeError::DuplicateGenes)
        } else {
            Ok(())
        },
    }
}

impl Genome {
    /// Whether some node of the genome has id `id`.
    fn contains_node(&self, id: i32) -> (r: bool)
        ensures
            r == has_node(self.nodes@, id),
    {
        let mut k: usize = 0;
        while k < self.nodes.len()
            invariant
                k <= self.nodes@.len(),
                forall|m: int| 0 <= m < k ==> self.nodes@[m].id != id,
            decreases self.nodes@.len() - k,
        {
            if self.nodes[k].id == id {
                return true;
            }
            k = k + 1;
        }
        false
    }

    /// Structural-integrity check, reporting the first fault found: a gene endpoint
    /// missing from the node list, node ids out of order, or duplicated genes.
    pub fn verify(&self) -> (r: Result<(), GenomeError>)
        ensures
            r == verify_spec(*self),
    {
        let n = self.genes.len();
        let mut k: usize = 0;
        proof {
            assert(self.genes@.subrange(0, n as int) == self.genes@);
        }
        while k < n
            invariant
                n == self.genes@.len(),
                k <= n,
                first_endpoint_fault(self.genes@, self.nodes@) == first_endpoint_fault(
                    self.genes@.subrange(k as int, n as int),
                    self.nodes@,
                ),
            decreases n - k,
        {
            let ghost rest = self.genes@.subrange(k as int, n as int);
            proof {
                assert(rest.drop_first() == self.genes@.subrange(k + 1, n as int));
            }
            let gene = self.genes[k];
            if !self.contains_node(gene.link.i_node) {
                return Err(GenomeError::MissingInputNode(gene.innovation_num));
            }
            if !self.contains_node(gene.link.o_node) {
                return Err(GenomeError::MissingOutputNode(gene.innovation_num));
            }
            k = k + 1;
        }
        proof {
            let rest = self.genes@.subrange(n as int, n as int);
            assert(rest.len() == 0);
            assert(first_endpoint_fault(rest, self.nodes@).is_none());
        }
        let mut m: usize = 1;
        while m < self.nodes.len()
            invariant
                first_endpoint_fault(self.genes@, self.nodes@).is_none(),
                1 <= m <= self.nodes@.len() || self.nodes@.len() == 0,
                forall|q: int| 0 < q < m && q < self.nodes@.len() ==> self.nodes@[q - 1].id <= #[trigger] self.nodes@[q].id,
            decreases self.nodes@.len() - m,
        {
            if self.nodes[m].id < self.nodes[m - 1].id {
                assert(!nodes_in_order(self.nodes@));
                return Err(GenomeError::NodesOutOfOrder);
            }
            m = m + 1;
        }
        let mut i: usize = 0;
        while i < n
            invariant
                first_endpoint_fault(self.genes@, self.nodes@).is_none(),
                nodes_in_order(self.nodes@),
                n == self.genes@.len(),
                i <= n,
                forall|p: int, q: int|
                    0 <= p < i && 0 <= q < n && p != q ==> !self.genes@[p].same_as(self.genes@[q]),
            decreases n - i,
        {
            let mut j: usize = 0;
            while j < n
                invariant
                    first_endpoint_fault(self.genes@, self.nodes@).is_none(),
                    nodes_in_order(self.nodes@),
                    n == self.genes@.len(),
                    i < n,
                    j <= n,
                    forall|p: int, q: int|
                        0 <= p < i && 0 <= q < n && p != q ==> !self.genes@[p].same_as(self.genes@[q]),
                    forall|q: int| 0 <= q < j && q != i ==> !self.genes@[i as int].same_as(self.genes@[q]),
                decreases n - j,
            {
                if i != j && self.genes[i] == self.genes[j] {
                    assert(has_duplicate_genes(self.genes@) && nodes_in_order(self.nodes@));
                    return Err(GenomeError::DuplicateGenes);
                }
                j = j + 1;
            }
            i = i + 1;
        }
        Ok(())
    }
}

} // verus!

verus! {

/// The trait a copied node or link uses: its own, or else the genome's first trait.
pub open spec fn trait_or_first(traits: Seq<Trait>, t: Option<i32>) -> Option<i32> {
    if t.is_some() {
        t
    } else if traits.len() > 0 {
        Some(traits[0].id)
    } else {
        None
    }
}

/// `n` duplicated (transient activation state reset) and given trait `t`.
pub open spec fn node_copy(n: Node, t: Option<i32>) -> Node {
    Node {
        last_activation: 0,
        last_activation2: 0,
        node_trait: t,
        frozen: false,
        override_node: false,
        activesum: 0,
        activation: 0,
        active_flag: false,
        ..n
    }
}

/// `g` with its link given trait `t`.
pub open spec fn gene_copy(g: Gene, t: Option<i32>) -> Gene {
    Gene { link: Link { link_trait: t, ..g.link }, ..g }
}

/// `r` is a deep copy of `g` under id `new_id`: the same traits, each node duplicated
/// and each gene copied, where a node or link without a trait takes the first trait.
pub open spec fn is_clone_of(r: Genome, g: Genome, new_id: i32) -> bool {
    &&& r.id == new_id
    &&& r.traits@ == g.traits@
    &&& r.nodes@.len() == g.nodes@.len()
    &&& r.genes@.len() == g.genes@.len()
    &&& forall|k: int|
        0 <= k < g.nodes@.len() ==> #[trigger] r.nodes@[k] == node_copy(
            g.nodes@[k],
            trait_or_first(g.traits@, g.nodes@[k].node_trait),
        )
    &&& forall|k: int|
        0 <= k < g.genes@.len() ==> #[trigger] r.genes@[k] == gene_copy(
            g.genes@[k],
            trait_or_first(g.traits@, g.genes@[k].link.link_trait),
        )
}

impl Genome {
    /// A deep copy under id `new_id`; see `is_clone_of`. The copy holds values, so it
    /// shares nothing with `self`.
    pub fn clone(&self, new_id: i32) -> (r: Genome)
        ensures
            is_clone_of(r, *self, new_id),
    {
        let mut traits: Vec<Trait> = Vec::new();
        let mut t: usize = 0;
        while t < self.traits.len()
            invariant
                t <= self.traits@.len(),
                traits@ == self.traits@.subrange(0, t as int),
            decreases self.traits@.len() - t,
        {
            traits.push(self.traits[t]);
            t = t + 1;
            proof {
                assert(traits@ == self.traits@.subrange(0, t as int));
            }
        }
        proof {
            assert(traits@ == self.traits@);
        }
        let first_trait: Option<i32> = if self.traits.len() > 0 {
            Some(self.traits[0].id)
        } else {
            None
        };
        let mut nodes: Vec<Node> = Vec::new();
        let mut k: usize = 0;
        while k < self.nodes.len()
            invariant
                k <= self.nodes@.len(),
                nodes@.len() == k,
                first_trait == trait_or_first(self.traits@, None),
                forall|q: int|
                    0 <= q < k ==> #[trigger] nodes@[q] == node_copy(
                        self.nodes@[q],
                        trait_or_first(self.traits@, self.nodes@[q].node_trait),
                    ),
            decreases self.nodes@.len() - k,
        {
            let mut new_node = self.nodes[k].duplicate();
            if new_node.node_trait.is_none() {
                new_node.node_trait = first_trait;
            }
            nodes.push(new_node);
            k = k + 1;
        }
        let mut genes: Vec<Gene> = Vec::new();
        let mut k: usize = 0;
        while k < self.genes.len()
            invariant
                k <= self.genes@.len(),
                genes@.len() == k,
                first_trait == trait_or_first(self.traits@, None),
                forall|q: int|
                    0 <= q < k ==> #[trigger] genes@[q] == gene_copy(
                        self.genes@[q],
                        trait_or_first(self.traits@, self.genes@[q].link.link_trait),
                    ),
            decreases self.genes@.len() - k,
        {
            let mut new_gene = self.genes[k];
            if new_gene.link.link_trait.is_none() {
                new_gene.link.link_trait = first_trait;
            }
            genes.push(new_gene);
            k = k + 1;
        }
        Genome { id: new_id, traits, nodes, genes }
    }
}

} // verus!

verus! {

/// Gene `position` (counting unfrozen genes only) of `total` lies in the last fifth
/// of a genome of ten or more genes.
pub open spec fn in_tail(position: int, total: int) -> bool {
    total >= 10 && position * 5 > total * 4
}

/// The thresholds `(gauss_point, cold_gauss_point)` of one weight mutation: a severe
/// mutation uses `(0.3, 0.1)`; a gene in the tail uses `(0.5, 0.3)`; any other gene
/// uses `(1 - rate, 1 - rate - 0.1)` when `wide_cold` and `(1 - rate, 1 - rate)`
/// otherwise.
pub open spec fn thresholds_spec(severe: bool, position: int, total: int, wide_cold: bool, rate: int) -> (int, int) {
    if severe {
        (300000, 100000)
    } else if in_tail(position, total) {
        (500000, 300000)
    } else if wide_cold {
        (SCALE - rate, SCALE - rate - SCALE / 10)
    } else {
        (SCALE - rate, SCALE - rate)
    }
}

/// The signed perturbation `±draw·power` in millionths, for a draw in `[0, 1)`.
pub open spec fn perturbation_spec(positive: bool, draw: int, power: int) -> int {
    let magnitude = if power >= 0 {
        draw * power / (SCALE as int)
    } else {
        -(draw * (-power) / (SCALE as int))
    };
    if positive {
        magnitude
    } else {
        -magnitude
    }
}

/// The new weight of one gene: with `Gaussian`, add the perturbation when `choice`
/// exceeds `gauss_point`, else replace the weight by it when `choice` exceeds
/// `cold_gauss_point`, else keep it; with `ColdGaussian`, replace it. The result is
/// then limited to `[-8, 8]`.
pub open spec fn mutated_weight_spec(
    weight: int,
    perturbation: int,
    choice: int,
    gauss_point: int,
    cold_gauss_point: int,
    mutator: Mutator,
) -> int {
    clamp_weight(
        match mutator {
            Mutator::Gaussian => if choice > gauss_point {
                weight + perturbation
            } else if choice > cold_gauss_point {
                perturbation
            } else {
                weight
            },
            Mutator::ColdGaussian => perturbation,
        },
    )
}

/// `w` is a weight that mutation by perturbation `p` may give a gene of weight `old`:
/// the sum, the perturbation or the old weight under `Gaussian`, the perturbation
/// under `ColdGaussian`, each limited to `[-8, 8]`.
pub open spec fn reachable_weight(w: int, old: int, p: int, mutator: Mutator) -> bool {
    match mutator {
        Mutator::Gaussian => w == clamp_weight(old + p) || w == clamp_weight(p) || w == clamp_weight(old),
        Mutator::ColdGaussian => w == clamp_weight(p),
    }
}

/// What weight mutation may make of gene `g`: a frozen gene is kept; any other gets
/// a weight in `[-8, 8]` reachable with a perturbation of magnitude at most `|power|`,
/// and its mutation number follows the new weight. Nothing else changes.
pub open spec fn weight_mutation_of(r: Gene, g: Gene, power: int, mutator: Mutator) -> bool {
    if g.frozen {
        r == g
    } else {
        &&& r == Gene { link: Link { weight: r.link.weight, ..g.link }, mutation_num: r.link.weight, ..g }
        &&& -WEIGHT_CAP <= r.link.weight <= WEIGHT_CAP
        &&& exists|p: int|
            abs(p) <= abs(power) && #[trigger] reachable_weight(
                r.link.weight as int,
                g.link.weight as int,
                p,
                mutator,
            )
    }
}

/// The mutation thresholds for one gene; see `thresholds_spec`.
pub fn mutation_thresholds(severe: bool, position: usize, total: usize, wide_cold: bool, rate: i64) -> (r: (i64, i64))
    requires
        -COEFF_LIMIT <= rate <= COEFF_LIMIT,
    ensures
        r.0 == thresholds_spec(severe, position as int, total as int, wide_cold, rate as int).0,
        r.1 == thresholds_spec(severe, position as int, total as int, wide_cold, rate as int).1,
{
    if severe {
        (300000, 100000)
    } else if total >= 10 && (position as u128) * 5 > (total as u128) * 4 {
        (500000, 300000)
    } else if wide_cold {
        (SCALE - rate, SCALE - rate - SCALE / 10)
    } else {
        (SCALE - rate, SCALE - rate)
    }
}

/// The signed perturbation for a draw in `[0, 1)`; see `perturbation_spec`.
pub fn perturbation(positive: bool, draw: i64, power: i64) -> (r: i64)
    requires
        0 <= draw < SCALE,
        -COEFF_LIMIT <= power <= COEFF_LIMIT,
    ensures
        r == perturbation_spec(positive, draw as int, power as int),
        abs(r as int) <= abs(power as int),
{
    let magnitude: i64 = if power >= 0 {
        assert(0 <= draw * power <= SCALE * COEFF_LIMIT) by (nonlinear_arith)
            requires
                0 <= draw < SCALE,
                0 <= power <= COEFF_LIMIT,
        ;
        assert(draw * power / (SCALE as int) <= power) by (nonlinear_arith)
            requires
                0 <= draw < SCALE,
                0 <= power,
        ;
        draw * power / SCALE
    } else {
        assert(0 <= draw * (-power) <= SCALE * COEFF_LIMIT) by (nonlinear_arith)
            requires
                0 <= draw < SCALE,
                0 < -power <= COEFF_LIMIT,
        ;
        assert(draw * (-power) / (SCALE as int) <= -power) by (nonlinear_arith)
            requires
                0 <= draw < SCALE,
                0 < -power,
        ;
        -(draw * (-power) / SCALE)
    };
    if positive {
        magnitude
    } else {
        -magnitude
    }
}

/// The new weight of one gene; see `mutated_weight_spec`.
pub fn mutated_weight(
    weight: i64,
    perturbation: i64,
    choice: i64,
    gauss_point: i64,
    cold_gauss_point: i64,
    mutator: Mutator,
) -> (r: i64)
    ensures
        r == mutated_weight_spec(
            weight as int,
            perturbation as int,
            choice as int,
            gauss_point as int,
            cold_gauss_point as int,
            mutator,
        ),
        -WEIGHT_CAP <= r <= WEIGHT_CAP,
{
    let raw: i128 = match mutator {
        Mutator::Gaussian => if choice > gauss_point {
            weight as i128 + perturbation as i128
        } else if choice > cold_gauss_point {
            perturbation as i128
        } else {
            weight as i128
        },
        Mutator::ColdGaussian => perturbation as i128,
    };
    if raw > WEIGHT_CAP as i128 {
        WEIGHT_CAP
    } else if raw < -(WEIGHT_CAP as i128) {
        -WEIGHT_CAP
    } else {
        raw as i64
    }
}

/// Number of unfrozen genes before position `k`.
pub open spec fn unfrozen_before(genes: Seq<Gene>, k: int) -> int
    decreases k,
{
    if k <= 0 {
        0
    } else {
        unfrozen_before(genes, k - 1) + if genes[k - 1].frozen {
            0int
        } else {
            1int
        }
    }
}

/// The weight one mutation step gives a gene of weight `old` at `position` among the
/// unfrozen genes of a genome of `total` genes, for the draws `severe`, `wide_cold`,
/// `positive`, `draw` and `choice`: thresholds, perturbation and new weight as
/// `thresholds_spec`, `perturbation_spec` and `mutated_weight_spec` say.
pub open spec fn step_weight(
    old: int,
    severe: bool,
    position: int,
    total: int,
    wide_cold: bool,
    positive: bool,
    draw: int,
    choice: int,
    power: int,
    rate: int,
    mutator: Mutator,
) -> int {
    let t = thresholds_spec(severe, position, total, wide_cold, rate);
    mutated_weight_spec(old, perturbation_spec(positive, draw, power), choice, t.0, t.1, mutator)
}

/// Gene `q` has in `new` the weight of one mutation step (see `step_weight`) from its
/// weight in `old`, with the shared `severe` draw, its position among the unfrozen
/// genes, and draws of its own in `[0, 1)`.
pub open spec fn step_holds(
    new: Seq<Gene>,
    old: Seq<Gene>,
    severe: bool,
    q: int,
    power: int,
    rate: int,
    mutator: Mutator,
) -> bool {
    exists|wide: bool, pos: bool, dr: int, ch: int|
        0 <= dr < SCALE && 0 <= ch < SCALE && new[q].link.weight == #[trigger] step_weight(
            old[q].link.weight as int,
            severe,
            unfrozen_before(old, q),
            old.len() as int,
            wide,
            pos,
            dr,
            ch,
            power,
            rate,
            mutator,
        )
}

/// Each unfrozen gene among the first `upto` has taken one mutation step with the
/// shared `severe` draw (see `step_holds`).
pub open spec fn mutation_steps(
    new: Seq<Gene>,
    old: Seq<Gene>,
    severe: bool,
    upto: int,
    power: int,
    rate: int,
    mutator: Mutator,
) -> bool {
    forall|q: int| 0 <= q < upto && !old[q].frozen ==> #[trigger] step_holds(new, old, severe, q, power, rate, mutator)
}

impl Genome {
    /// Perturbs or replaces the weight of every unfrozen gene at random (see
    /// `mutated_weight`, `mutation_thresholds` and `perturbation` for each step),
    /// limits it to `[-8, 8]` and records it as the gene's mutation number. Frozen
    /// genes are left alone.
    pub fn mutate_link_weights(&mut self, power: i64, rate: i64, mutator_type: Mutator)
        requires
            -COEFF_LIMIT <= power <= COEFF_LIMIT,
            -COEFF_LIMIT <= rate <= COEFF_LIMIT,
        ensures
            final(self).id == old(self).id,
            final(self).traits@ == old(self).traits@,
            final(self).nodes@ == old(self).nodes@,
            final(self).genes@.len() == old(self).genes@.len(),
            forall|k: int|
                0 <= k < old(self).genes@.len() ==> weight_mutation_of(
                    #[trigger] final(self).genes@[k],
                    old(self).genes@[k],
                    power as int,
                    mutator_type,
                ),
            exists|severe: bool|
                #[trigger] mutation_steps(
                    final(self).genes@,
                    old(self).genes@,
                    severe,
                    old(self).genes@.len() as int,
                    power as int,
                    rate as int,
                    mutator_type,
                ),
    {
        let severe_mutation = crate::random::coin();
        let gene_total = self.genes.len();
        let mut num: usize = 0;
        let mut k: usize = 0;
        while k < gene_total
            invariant
                gene_total == self.genes@.len(),
                gene_total == old(self).genes@.len(),
                k <= gene_total,
                num <= k,
                num == unfrozen_before(old(self).genes@, k as int),
                mutation_steps(self.genes@, old(self).genes@, severe_mutation, k as int, power as int, rate as int, mutator_type),
                -COEFF_LIMIT <= power <= COEFF_LIMIT,
                -COEFF_LIMIT <= rate <= COEFF_LIMIT,
                self.id == old(self).id,
                self.traits@ == old(self).traits@,
                self.nodes@ == old(self).nodes@,
                forall|q: int| k <= q < gene_total ==> self.genes@[q] == old(self).genes@[q],
                forall|q: int|
                    0 <= q < k ==> weight_mutation_of(
                        #[trigger] self.genes@[q],
                        old(self).genes@[q],
                        power as int,
                        mutator_type,
                    ),
            decreases gene_total - k,
        {
            let gene = self.genes[k];
            if !gene.is_frozen() {
                let wide_cold = if severe_mutation {
                    false
                } else {
                    crate::random::coin()
                };
                let (gauss_point, cold_gauss_point) = mutation_thresholds(severe_mutation, num, gene_total, wide_cold, rate);
                let positive = crate::random::coin();
                let draw = crate::random::below(SCALE as usize) as i64;
                let p = perturbation(positive, draw, power);
                let choice = crate::random::below(SCALE as usize) as i64;
                let w = mutated_weight(gene.link.weight, p, choice, gauss_point, cold_gauss_point, mutator_type);
                let mut new_gene = gene;
                new_gene.link.weight = w;
                new_gene.mutation_num = w;
                proof {
                    assert(reachable_weight(w as int, gene.link.weight as int, p as int, mutator_type));
                    assert(weight_mutation_of(new_gene, gene, power as int, mutator_type));
                    assert(w == step_weight(
                        gene.link.weight as int,
                        severe_mutation,
                        num as int,
                        gene_total as int,
                        wide_cold,
                        positive,
                        draw as int,
                        choice as int,
                        power as int,
                        rate as int,
                        mutator_type,
                    ));
                }
                let ghost before = self.genes@;
                self.genes.set(k, new_gene);
                proof {
                    assert forall|q: int| 0 <= q < k + 1 && !old(self).genes@[q].frozen implies #[trigger] step_holds(
                        self.genes@,
                        old(self).genes@,
                        severe_mutation,
                        q,
                        power as int,
                        rate as int,
                        mutator_type,
                    ) by {
                        if q < k {
                            assert(step_holds(before, old(self).genes@, severe_mutation, q, power as int, rate as int, mutator_type));
                            assert(self.genes@[q] == before[q]);
                        } else {
                            assert(self.genes@[q].link.weight == w);
                            assert(old(self).genes@[q] == gene);
                            assert(self.genes@[q].link.weight == step_weight(
                                old(self).genes@[q].link.weight as int,
                                severe_mutation,
                                unfrozen_before(old(self).genes@, q),
                                old(self).genes@.len() as int,
                                wide_cold,
                                positive,
                                draw as int,
                                choice as int,
                                power as int,
                                rate as int,
                                mutator_type,
                            ));
                        }
                    }
                }
                num = num + 1;
            } else {
                proof {
                    assert(old(self).genes@[k as int] == gene);
                    assert(old(self).genes@[k as int].frozen);
                    assert forall|q: int| 0 <= q < k + 1 && !old(self).genes@[q].frozen implies #[trigger] step_holds(
                        self.genes@,
                        old(self).genes@,
                        severe_mutation,
                        q,
                        power as int,
                        rate as int,
                        mutator_type,
                    ) by {
                        assert(q < k);
                        assert(step_holds(self.genes@, old(self).genes@, severe_mutation, q, power as int, rate as int, mutator_type));
                    }
                }
            }
            k = k + 1;
        }
    }
}

} // verus!

verus! {

/// `t` names one of the traits in `traits`.
pub open spec fn names_trait_of(traits: Seq<Trait>, t: Option<i32>) -> bool {
    exists|k: int| 0 <= k < traits.len() && t == Some(#[trigger] traits[k].id)
}

impl Genome {
    /// Gives every node and every gene's link a trait drawn uniformly from the
    /// genome's traits. Nothing else changes.
    pub fn randomize_traits(&mut self)
        requires
            old(self).traits@.len() > 0,
        ensures
            final(self).id == old(self).id,
            final(self).traits@ == old(self).traits@,
            final(self).nodes@.len() == old(self).nodes@.len(),
            final(self).genes@.len() == old(self).genes@.len(),
            forall|k: int|
                0 <= k < old(self).nodes@.len() ==> {
                    let n = #[trigger] final(self).nodes@[k];
                    &&& n == Node { node_trait: n.node_trait, ..old(self).nodes@[k] }
                    &&& names_trait_of(old(self).traits@, n.node_trait)
                },
            forall|k: int|
                0 <= k < old(self).genes@.len() ==> {
                    let g = #[trigger] final(self).genes@[k];
                    &&& g == Gene { link: Link { link_trait: g.link.link_trait, ..old(self).genes@[k].link }, ..old(self).genes@[k] }
                    &&& names_trait_of(old(self).traits@, g.link.link_trait)
                },
    {
        let num_traits = self.traits.len();
        let mut k: usize = 0;
        while k < self.nodes.len()
            invariant
                num_traits == self.traits@.len() > 0,
                self.id == old(self).id,
                self.traits@ == old(self).traits@,
                self.genes@ == old(self).genes@,
                self.nodes@.len() == old(self).nodes@.len(),
                k <= self.nodes@.len(),
                forall|q: int| k <= q < self.nodes@.len() ==> self.nodes@[q] == old(self).nodes@[q],
                forall|q: int|
                    0 <= q < k ==> {
                        let n = #[trigger] self.nodes@[q];
                        &&& n == Node { node_trait: n.node_trait, ..old(self).nodes@[q] }
                        &&& names_trait_of(old(self).traits@, n.node_trait)
                    },
            decreases self.nodes@.len() - k,
        {
            let trait_num = crate::random::below(num_traits);
            let mut node = self.nodes[k];
            node.node_trait = Some(self.traits[trait_num].id);
            self.nodes.set(k, node);
            k = k + 1;
        }
        let mut k: usize = 0;
        while k < self.genes.len()
            invariant
                num_traits == self.traits@.len() > 0,
                self.id == old(self).id,
                self.traits@ == old(self).traits@,
                self.genes@.len() == old(self).genes@.len(),
                self.nodes@.len() == old(self).nodes@.len(),
                k <= self.genes@.len(),
                forall|q: int|
                    0 <= q < self.nodes@.len() ==> {
                        let n = #[trigger] self.nodes@[q];
                        &&& n == Node { node_trait: n.node_trait, ..old(self).nodes@[q] }
                        &&& names_trait_of(old(self).traits@, n.node_trait)
                    },
                forall|q: int| k <= q < self.genes@.len() ==> self.genes@[q] == old(self).genes@[q],
                forall|q: int|
                    0 <= q < k ==> {
                        let g = #[trigger] self.genes@[q];
                        &&& g == Gene { link: Link { link_trait: g.link.link_trait, ..old(self).genes@[q].link }, ..old(self).genes@[q] }
                        &&& names_trait_of(old(self).traits@, g.link.link_trait)
                    },
            decreases self.genes@.len() - k,
        {
            let trait_num = crate::random::below(num_traits);
            let mut gene = self.genes[k];
            gene.link.link_trait = Some(self.traits[trait_num].id);
            self.genes.set(k, gene);
            k = k + 1;
        }
    }
}

} // verus!

verus! {

/// A clone is structurally identical to its source: the same traits, the same node
/// ids in the same order, and the same genes (innovation numbers, endpoints,
/// weights, mutation numbers and flags) in the same order. Being a value, it shares
/// no node or link with the source, so mutating it leaves the source as it was.
pub proof fn lemma_clone_structure(r: Genome, g: Genome, new_id: i32)
    requires
        is_clone_of(r, g, new_id),
    ensures
        r.traits@ == g.traits@,
        r.nodes@.len() == g.nodes@.len(),
        r.genes@.len() == g.genes@.len(),
        forall|k: int| 0 <= k < g.nodes@.len() ==> (#[trigger] r.nodes@[k]).id == g.nodes@[k].id,
        forall|k: int|
            0 <= k < g.genes@.len() ==> {
                let a = #[trigger] r.genes@[k];
                let b = g.genes@[k];
                &&& a.innovation_num == b.innovation_num
                &&& a.mutation_num == b.mutation_num
                &&& a.link.i_node == b.link.i_node
                &&& a.link.o_node == b.link.o_node
                &&& a.link.weight == b.link.weight
                &&& a.link.recurrent == b.link.recurrent
                &&& a.enable == b.enable
                &&& a.frozen == b.frozen
            },
{
    assert forall|k: int| 0 <= k < g.nodes@.len() implies (#[trigger] r.nodes@[k]).id == g.nodes@[k].id by {
        assert(r.nodes@[k] == node_copy(g.nodes@[k], trait_or_first(g.traits@, g.nodes@[k].node_trait)));
    }
    assert forall|k: int| 0 <= k < g.genes@.len() implies (#[trigger] r.genes@[k]).innovation_num == g.genes@[k].innovation_num by {
        assert(r.genes@[k] == gene_copy(g.genes@[k], trait_or_first(g.traits@, g.genes@[k].link.link_trait)));
    }
}

} // verus!
