use neat::env::Env;
use neat::fixed::{SCALE, WEIGHT_CAP};
use neat::genome::gene::Gene;
use neat::genome::gene_trait::Trait;
use neat::genome::{mutated_weight, mutation_thresholds, perturbation, Genome, GenomeError};
use neat::node::{Node, NodePlace, NodeType};
use neat::Mutator;

fn xor_genome(id: i32) -> Genome {
    let mut g = Genome::new(id);
    g.add_trait(Trait::new(1, [100000, 0, 0, 0, 0, 0, 0, 0]));
    g.add_trait(Trait::new(2, [200000, 0, 0, 0, 0, 0, 0, 0]));
    g.add_trait(Trait::new(3, [300000, 0, 0, 0, 0, 0, 0, 0]));
    g.add_node(Node::new(1, None, NodeType::Sensor, NodePlace::Bias));
    g.add_node(Node::new(2, None, NodeType::Sensor, NodePlace::Input));
    g.add_node(Node::new(3, None, NodeType::Sensor, NodePlace::Input));
    g.add_node(Node::new(4, None, NodeType::Neuron, NodePlace::Output));
    g.add_gene(Gene::new(Some(1), 1, 4, 0, false, 1, 0, true));
    g.add_gene(Gene::new(Some(2), 2, 4, 0, false, 2, 0, true));
    g.add_gene(Gene::new(Some(3), 3, 4, 0, false, 3, 0, true));
    g
}

fn genes_with(innovations: &[u64], mutation: i64) -> Genome {
    let mut g = Genome::new(0);
    for &i in innovations {
        g.add_gene(Gene::new(None, 1, 2, 0, false, i, mutation, true));
    }
    g
}

fn coeffs(disjoint: i64, excess: i64, mutdiff: i64) -> Env {
    let mut env = *Env::new();
    env.disjoint_coeff = disjoint;
    env.excess_coeff = excess;
    env.mutdiff_coeff = mutdiff;
    env
}

#[test]
fn compatibility_with_itself_is_zero() {
    let g = xor_genome(1);
    let env = coeffs(SCALE, 2 * SCALE, 400000);
    assert_eq!(g.compatibility(&g, &env), 0);
}

#[test]
fn compatibility_without_shared_innovations_is_all_excess() {
    let a = genes_with(&[1, 2, 3], 0);
    let b = Genome::new(1);
    let env = coeffs(3 * SCALE, SCALE, SCALE);
    assert_eq!(a.compatibility(&b, &env), 3 * SCALE as i128);
    let c = genes_with(&[4, 5], 0);
    let same = coeffs(SCALE, SCALE, SCALE);
    assert_eq!(a.compatibility(&c, &same), 5 * SCALE as i128);
}

#[test]
fn compatibility_counts_disjoint_excess_and_mutation_difference() {
    // a: 1 2 4 6, b: 1 3 4: 2 and 3 are disjoint, 6 is excess, 1 and 4 match.
    let mut a = genes_with(&[1, 2, 4, 6], 0);
    a.genes[0].mutation_num = 2 * SCALE;
    let mut b = genes_with(&[1, 3, 4], 0);
    b.genes[2].mutation_num = -SCALE;
    let env = coeffs(SCALE, 2 * SCALE, 500000);
    // 1.0 * 2 + 2.0 * 1 + 0.5 * ((2.0 + 1.0) / 2) = 4.75
    assert_eq!(a.compatibility(&b, &env), 4750000);
}

#[test]
fn one_disjoint_gene_gives_distance_one() {
    let a = genes_with(&[1, 2, 3], 0);
    let b = genes_with(&[1, 3], 0);
    let env = coeffs(SCALE, 0, 0);
    assert_eq!(a.compatibility(&b, &env), SCALE as i128);
}

#[test]
fn verify_accepts_well_formed_genome() {
    assert_eq!(xor_genome(1).verify(), Ok(()));
}

#[test]
fn verify_reports_missing_endpoint() {
    let mut g = xor_genome(1);
    g.nodes.pop();
    assert_eq!(g.verify(), Err(GenomeError::MissingOutputNode(1)));
    let mut h = xor_genome(1);
    h.nodes.remove(0);
    assert_eq!(h.verify(), Err(GenomeError::MissingInputNode(1)));
}

#[test]
fn verify_reports_nodes_out_of_order() {
    let mut g = xor_genome(1);
    g.nodes.swap(1, 2);
    assert_eq!(g.verify(), Err(GenomeError::NodesOutOfOrder));
}

#[test]
fn verify_reports_duplicate_genes() {
    let mut g = xor_genome(1);
    let copy = g.genes[1];
    g.add_gene(copy);
    assert_eq!(g.verify(), Err(GenomeError::DuplicateGenes));
}

#[test]
fn links_differing_only_in_delay_are_equal() {
    let mut g = xor_genome(1);
    let mut copy = g.genes[1];
    copy.link.time_delay = true;
    assert!(copy.link == g.genes[1].link);
    g.add_gene(copy);
    assert_eq!(g.verify(), Err(GenomeError::DuplicateGenes));
}

#[test]
fn clone_copies_structure_and_fills_missing_traits() {
    let mut g = xor_genome(1);
    g.genes[1].link.link_trait = None;
    g.nodes[0].activation = 5;
    let c = g.clone(7);
    assert_eq!(c.id, 7);
    assert_eq!(c.traits.len(), 3);
    for k in 0..4 {
        assert_eq!(c.nodes[k].id, g.nodes[k].id);
        assert_eq!(c.nodes[k].node_trait, Some(1));
    }
    assert_eq!(c.nodes[0].activation, 0);
    for k in 0..3 {
        assert_eq!(c.genes[k].innovation_num, g.genes[k].innovation_num);
        assert_eq!(c.genes[k].link.i_node, g.genes[k].link.i_node);
        assert_eq!(c.genes[k].link.o_node, g.genes[k].link.o_node);
    }
    assert_eq!(c.genes[1].link.link_trait, Some(1));
    assert_eq!(c.genes[2].link.link_trait, Some(3));
}

#[test]
fn mutating_a_clone_leaves_the_source_alone() {
    let g = xor_genome(1);
    let mut c = g.clone(2);
    c.mutate_link_weights(SCALE, SCALE, Mutator::ColdGaussian);
    c.genes[0].link.weight = 3 * SCALE;
    for k in 0..3 {
        assert_eq!(g.genes[k].link.weight, 0);
        assert_eq!(g.genes[k].mutation_num, 0);
    }
}

#[test]
fn mutation_keeps_weights_capped_and_skips_frozen_genes() {
    let mut g = xor_genome(1);
    g.genes[0].frozen = true;
    g.genes[0].link.weight = 20 * SCALE;
    g.genes[1].link.weight = 7900000;
    for _ in 0..50 {
        g.mutate_link_weights(5 * SCALE, SCALE, Mutator::Gaussian);
        for k in 1..3 {
            assert!(g.genes[k].link.weight >= -WEIGHT_CAP && g.genes[k].link.weight <= WEIGHT_CAP);
            assert_eq!(g.genes[k].mutation_num, g.genes[k].link.weight);
        }
        assert_eq!(g.genes[0].link.weight, 20 * SCALE);
        assert_eq!(g.genes[0].mutation_num, 0);
    }
}

#[test]
fn cold_mutation_draws_within_power() {
    let mut g = xor_genome(1);
    for _ in 0..50 {
        g.mutate_link_weights(SCALE / 2, SCALE, Mutator::ColdGaussian);
        for k in 0..3 {
            assert!(g.genes[k].link.weight.abs() <= SCALE / 2);
        }
    }
}

#[test]
fn mutation_helpers_follow_their_formulas() {
    assert_eq!(mutation_thresholds(true, 0, 3, false, 200000), (300000, 100000));
    assert_eq!(mutation_thresholds(false, 9, 10, false, 200000), (500000, 300000));
    assert_eq!(mutation_thresholds(false, 8, 10, true, 200000), (800000, 700000));
    assert_eq!(mutation_thresholds(false, 8, 10, false, 200000), (800000, 800000));
    assert_eq!(perturbation(true, 500000, 2 * SCALE), SCALE);
    assert_eq!(perturbation(false, 250000, 2 * SCALE), -500000);
    assert_eq!(mutated_weight(SCALE, 500000, 900000, 800000, 700000, Mutator::Gaussian), 1500000);
    assert_eq!(mutated_weight(SCALE, 500000, 750000, 800000, 700000, Mutator::Gaussian), 500000);
    assert_eq!(mutated_weight(SCALE, 500000, 100000, 800000, 700000, Mutator::Gaussian), SCALE);
    assert_eq!(mutated_weight(7 * SCALE, 3 * SCALE, 900000, 800000, 700000, Mutator::Gaussian), WEIGHT_CAP);
    assert_eq!(mutated_weight(SCALE, -9 * SCALE, 0, 800000, 700000, Mutator::ColdGaussian), -WEIGHT_CAP);
}

#[test]
fn randomized_traits_come_from_the_genome() {
    let mut g = xor_genome(1);
    for _ in 0..20 {
        g.randomize_traits();
        for k in 0..4 {
            let t = g.nodes[k].node_trait.unwrap();
            assert!((1..=3).contains(&t));
        }
        for k in 0..3 {
            let t = g.genes[k].link.link_trait.unwrap();
            assert!((1..=3).contains(&t));
        }
    }
}

#[test]
fn last_ids_are_reported() {
    let g = xor_genome(1);
    assert_eq!(g.get_last_node_id(), Some(4));
    assert_eq!(g.get_last_gene_innovnum(), Some(3));
    let e = Genome::new(2);
    assert_eq!(e.get_last_node_id(), None);
    assert_eq!(e.get_last_gene_innovnum(), None);
}
